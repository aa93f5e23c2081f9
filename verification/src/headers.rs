//! HTTP header maps: reading a header as text, and setting or appending one.

use hyper::HeaderMap;
use vstd::prelude::*;
use vstd::utf8::{encode_scalar, encode_utf8, leading_byte_width_1};

verus! {

/// Declares `hyper::HeaderMap`, an opaque type whose contents `header_entries`
/// names.
#[verifier::external_type_specification]
#[verifier::external_body]
#[verifier::reject_recursive_types(T)]
pub struct ExHeaderMap<T>(hyper::HeaderMap<T>);

/// Declares `hyper::header::HeaderValue`, the values of a `HeaderMap`.
#[verifier::external_type_specification]
#[verifier::external_body]
pub struct ExHeaderValue(hyper::header::HeaderValue);

/// Copies a header map.
///
/// Specifies `HeaderMap::clone`; nothing is claimed of the copy, as its values
/// may be of any type.
pub assume_specification<T>[<hyper::HeaderMap<T> as std::clone::Clone>::clone](
    m: &hyper::HeaderMap<T>,
) -> hyper::HeaderMap<T>
    where
        T: std::clone::Clone,
;

/// What a header map holds: each header name (lower-case bytes), once, in the
/// order the names were first added, with its values in the order they were
/// added.
pub uninterp spec fn header_entries(m: HeaderMap) -> Seq<(Seq<u8>, Seq<Seq<u8>>)>;

/// A header map with no header.
///
/// Calls `HeaderMap::new`; the contract claims that the new map holds no entry.
#[verifier::external_body]
fn header_map_new() -> (r: HeaderMap)
    ensures
        header_entries(r) == Seq::<(Seq<u8>, Seq<Seq<u8>>)>::empty(),
{
    HeaderMap::new()
}

/// A header map with no header, such as the response headers that a handler
/// starts from.
pub fn empty_headers() -> (r: HeaderMap)
    ensures
        header_entries(r) == Seq::<(Seq<u8>, Seq<Seq<u8>>)>::empty(),
        names_distinct(header_entries(r)),
{
    header_map_new()
}

/// Why a header could not be set.
#[derive(Debug, Clone, Copy, PartialEq, Eq)]
pub enum HeaderError {
    /// The name is not a valid header name.
    InvalidName,
    /// The value holds a byte that header values may not hold.
    InvalidValue,
    /// The map cannot take another header.
    Full,
}

/// The byte a header name byte stands for (letters are lower-cased), or `None`
/// when header names may not hold it.
pub open spec fn header_name_byte(b: u8) -> Option<u8> {
    if b == 33 || (35 <= b <= 39) || b == 42 || b == 43 || b == 45 || b == 46 || (48 <= b <= 57)
        || (94 <= b <= 122) || b == 124 || b == 126 {
        Some(b)
    } else if 65 <= b <= 90 {
        Some((b + 32) as u8)
    } else {
        None
    }
}

/// The key under which a header name is stored: its bytes lower-cased, when the
/// name is valid (one to 65535 bytes, each allowed in a header name).
pub open spec fn header_key(name: Seq<char>) -> Option<Seq<u8>> {
    let b = encode_utf8(name);
    if 1 <= b.len() <= 65535 && forall|i: int| 0 <= i < b.len() ==> #[trigger] header_name_byte(b[i]) is Some {
        Some(b.map_values(|x: u8| header_name_byte(x)->0))
    } else {
        None
    }
}

/// Whether a header value may hold these bytes: no control byte but tab.
pub open spec fn header_value_ok(v: Seq<u8>) -> bool {
    forall|i: int| 0 <= i < v.len() ==> (#[trigger] v[i] >= 32 && v[i] != 127) || v[i] == 9
}

/// Whether a header value is visible ASCII (or tab), so that it reads as text.
pub open spec fn header_visible(v: Seq<u8>) -> bool {
    forall|i: int| 0 <= i < v.len() ==> (32 <= #[trigger] v[i] < 127) || v[i] == 9
}

/// Whether position `i` holds the first entry for `key`.
pub open spec fn first_at(es: Seq<(Seq<u8>, Seq<Seq<u8>>)>, key: Seq<u8>, i: int) -> bool {
    0 <= i < es.len() && es[i].0 == key && forall|j: int| 0 <= j < i ==> es[j].0 != key
}

/// The position of the entry for `key` (the first one, though a map holds one
/// entry per name), if any.
pub open spec fn entry_index(es: Seq<(Seq<u8>, Seq<Seq<u8>>)>, key: Seq<u8>) -> Option<int> {
    if exists|i: int| #[trigger] first_at(es, key, i) {
        Some(choose|i: int| #[trigger] first_at(es, key, i))
    } else {
        None
    }
}

/// All the values stored for `key`, in order (none when it has no entry).
pub open spec fn entry_values(es: Seq<(Seq<u8>, Seq<Seq<u8>>)>, key: Seq<u8>) -> Seq<Seq<u8>> {
    match entry_index(es, key) {
        Some(i) => es[i].1,
        None => Seq::empty(),
    }
}

/// The first value stored for `key`, if any.
pub open spec fn first_value(es: Seq<(Seq<u8>, Seq<Seq<u8>>)>, key: Seq<u8>) -> Option<Seq<u8>> {
    if entry_values(es, key).len() > 0 {
        Some(entry_values(es, key)[0])
    } else {
        None
    }
}

/// The values of `key` are `vals` afterwards, and every other name keeps its
/// values.
pub open spec fn changes_only(
    before: Seq<(Seq<u8>, Seq<Seq<u8>>)>,
    after: Seq<(Seq<u8>, Seq<Seq<u8>>)>,
    key: Seq<u8>,
    vals: Seq<Seq<u8>>,
) -> bool {
    &&& entry_values(after, key) == vals
    &&& forall|other: Seq<u8>|
        other != key ==> #[trigger] entry_values(after, other) == entry_values(before, other)
}

/// Below this many names a header map always takes one more.
pub const MAP_FULL_SAFE: usize = 6553;

/// The entries after setting `key` to the single value `v`: the values of an
/// existing entry are replaced in place, else a new entry comes last.
pub open spec fn insert_entry(es: Seq<(Seq<u8>, Seq<Seq<u8>>)>, key: Seq<u8>, v: Seq<u8>) -> Seq<
    (Seq<u8>, Seq<Seq<u8>>),
> {
    match entry_index(es, key) {
        Some(i) => es.update(i, (key, seq![v])),
        None => es.push((key, seq![v])),
    }
}

/// The entries after adding the value `v` for `key` behind its other values.
pub open spec fn append_entry(es: Seq<(Seq<u8>, Seq<Seq<u8>>)>, key: Seq<u8>, v: Seq<u8>) -> Seq<
    (Seq<u8>, Seq<Seq<u8>>),
> {
    match entry_index(es, key) {
        Some(i) => es.update(i, (key, es[i].1.push(v))),
        None => es.push((key, seq![v])),
    }
}

/// No header name occurs twice among the entries.
pub open spec fn names_distinct(es: Seq<(Seq<u8>, Seq<Seq<u8>>)>) -> bool {
    forall|i: int, j: int| 0 <= i < j < es.len() ==> #[trigger] es[i].0 != #[trigger] es[j].0
}

/// Where some entry holds `key`, a first one does.
proof fn lemma_first_exists(es: Seq<(Seq<u8>, Seq<Seq<u8>>)>, key: Seq<u8>, i: int)
    requires
        0 <= i < es.len(),
        es[i].0 == key,
    ensures
        exists|m: int| #[trigger] first_at(es, key, m),
    decreases i,
{
    if exists|j: int| 0 <= j < i && es[j].0 == key {
        let j = choose|j: int| 0 <= j < i && es[j].0 == key;
        lemma_first_exists(es, key, j);
    } else {
        assert(first_at(es, key, i));
    }
}

/// The position of the entry for `key` is its first one, and there is none
/// when no entry holds `key`.
proof fn lemma_entry_index(es: Seq<(Seq<u8>, Seq<Seq<u8>>)>, key: Seq<u8>)
    ensures
        match entry_index(es, key) {
            Some(i) => first_at(es, key, i),
            None => forall|i: int| 0 <= i < es.len() ==> es[i].0 != key,
        },
{
    if !(exists|i: int| #[trigger] first_at(es, key, i)) {
        assert forall|i: int| 0 <= i < es.len() implies es[i].0 != key by {
            if es[i].0 == key {
                lemma_first_exists(es, key, i);
            }
        }
    }
}

/// The first entry for `key` is where `entry_index` finds it.
proof fn lemma_entry_index_is(es: Seq<(Seq<u8>, Seq<Seq<u8>>)>, key: Seq<u8>, i: int)
    requires
        first_at(es, key, i),
    ensures
        entry_index(es, key) == Some(i),
{
    let m = choose|m: int| #[trigger] first_at(es, key, m);
    assert(first_at(es, key, m));
    if m < i {
        assert(es[m].0 != key);
    } else if m > i {
        assert(es[i].0 != key);
    }
}

/// Entries that keep the names of `es` in place (changing values only at
/// `key`) and add only entries for `key` keep the values of every other name.
proof fn lemma_other_values_kept(
    es: Seq<(Seq<u8>, Seq<Seq<u8>>)>,
    f: Seq<(Seq<u8>, Seq<Seq<u8>>)>,
    key: Seq<u8>,
    other: Seq<u8>,
)
    requires
        other != key,
        es.len() <= f.len(),
        forall|l: int| 0 <= l < es.len() ==> #[trigger] f[l].0 == es[l].0 && (f[l].1 == es[l].1 || es[l].0 == key),
        forall|l: int| es.len() <= l < f.len() ==> #[trigger] f[l].0 == key,
    ensures
        entry_values(f, other) == entry_values(es, other),
{
    lemma_entry_index(es, other);
    match entry_index(es, other) {
        Some(j) => {
            assert(f[j].0 == es[j].0);
            assert forall|l: int| 0 <= l < j implies f[l].0 != other by {
                assert(f[l].0 == es[l].0);
            }
            assert(first_at(f, other, j));
            lemma_entry_index_is(f, other, j);
        },
        None => {
            lemma_entry_index(f, other);
            if let Some(j) = entry_index(f, other) {
                if j < es.len() {
                    assert(f[j].0 == es[j].0);
                } else {
                    assert(f[j].0 == key);
                }
            }
        },
    }
}

/// Setting `key` to `v` leaves it exactly that one value; appending `v` adds it
/// behind its values; every other name keeps its values either way.
pub proof fn lemma_write_effects(es: Seq<(Seq<u8>, Seq<Seq<u8>>)>, key: Seq<u8>, v: Seq<u8>)
    ensures
        changes_only(es, insert_entry(es, key, v), key, seq![v]),
        changes_only(es, append_entry(es, key, v), key, entry_values(es, key).push(v)),
{
    let ins = insert_entry(es, key, v);
    let app = append_entry(es, key, v);
    lemma_entry_index(es, key);
    match entry_index(es, key) {
        Some(i) => {
            assert forall|l: int| 0 <= l < i implies ins[l].0 != key by {
                assert(ins[l] == es[l]);
            }
            assert forall|l: int| 0 <= l < i implies app[l].0 != key by {
                assert(app[l] == es[l]);
            }
            assert(first_at(ins, key, i));
            assert(first_at(app, key, i));
            lemma_entry_index_is(ins, key, i);
            lemma_entry_index_is(app, key, i);
        },
        None => {
            let n = es.len() as int;
            assert forall|l: int| 0 <= l < n implies ins[l].0 != key by {
                assert(ins[l] == es[l]);
            }
            assert forall|l: int| 0 <= l < n implies app[l].0 != key by {
                assert(app[l] == es[l]);
            }
            assert(first_at(ins, key, n));
            assert(first_at(app, key, n));
            lemma_entry_index_is(ins, key, n);
            lemma_entry_index_is(app, key, n);
            assert(entry_values(es, key) =~= Seq::<Seq<u8>>::empty());
            assert(seq![v] =~= Seq::<Seq<u8>>::empty().push(v));
        },
    }
    assert forall|other: Seq<u8>| other != key implies #[trigger] entry_values(ins, other)
        == entry_values(es, other) by {
        lemma_other_values_kept(es, ins, key, other);
    }
    assert forall|other: Seq<u8>| other != key implies #[trigger] entry_values(app, other)
        == entry_values(es, other) by {
        lemma_other_values_kept(es, app, key, other);
    }
}

/// A header reads back as it was written: after setting `key` to `v` its first
/// value is `v`; after appending `v` its first value is the one it had, or `v`
/// when it had none; and every other header keeps its first value.
pub proof fn lemma_header_read_after_write(
    es: Seq<(Seq<u8>, Seq<Seq<u8>>)>,
    key: Seq<u8>,
    v: Seq<u8>,
    other: Seq<u8>,
)
    requires
        other != key,
    ensures
        first_value(insert_entry(es, key, v), key) == Some(v),
        first_value(append_entry(es, key, v), key) == match first_value(es, key) {
            Some(f) => Some(f),
            None => Some(v),
        },
        first_value(insert_entry(es, key, v), other) == first_value(es, other),
        first_value(append_entry(es, key, v), other) == first_value(es, other),
{
    lemma_write_effects(es, key, v);
    assert(entry_values(insert_entry(es, key, v), other) == entry_values(es, other));
    assert(entry_values(append_entry(es, key, v), other) == entry_values(es, other));
    let vs = entry_values(es, key);
    if vs.len() > 0 {
        assert(vs.push(v)[0] == vs[0]);
    }
}

/// The chars of visible ASCII bytes.
pub open spec fn ascii_text(v: Seq<u8>) -> Seq<char> {
    v.map_values(|b: u8| b as char)
}

/// The first value of header `name`, as bytes.
///
/// Calls `HeaderMap::get` with the name as text; the contract claims that an
/// invalid name finds nothing and that a valid one finds the first value
/// stored under its lower-cased key.
#[verifier::external_body]
pub(crate) fn header_first_value(m: &HeaderMap, name: &str) -> (r: Option<Vec<u8>>)
    ensures
        match header_key(name@) {
            Some(k) => match first_value(header_entries(*m), k) {
                Some(v) => r matches Some(w) && w@ == v,
                None => r is None,
            },
            None => r is None,
        },
{
    m.get(name).map(|v| v.as_bytes().to_vec())
}

/// All the values of header `name`, as bytes, in order.
///
/// Calls `HeaderMap::get_all` and reads each value's bytes; the contract claims
/// that an invalid name finds nothing and that a valid one finds the values
/// stored under its lower-cased key.
#[verifier::external_body]
fn header_values(m: &HeaderMap, name: &str) -> (r: Vec<Vec<u8>>)
    ensures
        match header_key(name@) {
            Some(k) => r@.len() == entry_values(header_entries(*m), k).len() && forall|i: int|
                0 <= i < r@.len() ==> #[trigger] r@[i]@ == entry_values(header_entries(*m), k)[i],
            None => r@.len() == 0,
        },
{
    m.get_all(name).iter().map(|v| v.as_bytes().to_vec()).collect()
}

/// The first value of header `name` read as text.
///
/// Calls `HeaderMap::get` and `HeaderValue::to_str`; the contract claims that
/// the result is the first value stored under the name's key when that value
/// is visible ASCII, and nothing otherwise.
#[verifier::external_body]
fn header_first_text<'a>(m: &'a HeaderMap, name: &str) -> (r: Option<&'a str>)
    ensures
        match header_key(name@) {
            Some(k) => match first_value(header_entries(*m), k) {
                Some(v) => if header_visible(v) {
                    r matches Some(s) && s@ == ascii_text(v)
                } else {
                    r is None
                },
                None => r is None,
            },
            None => r is None,
        },
{
    m.get(name).and_then(|v| v.to_str().ok())
}

/// Whether `name` is a valid header name.
///
/// Calls `HeaderName::from_bytes`; the contract claims that it accepts exactly
/// the names that `header_key` gives a key for.
#[verifier::external_body]
fn header_name_valid(name: &str) -> (r: bool)
    ensures
        r == header_key(name@) is Some,
{
    hyper::header::HeaderName::from_bytes(name.as_bytes()).is_ok()
}

/// Whether `value` is a valid header value.
///
/// Calls `HeaderValue::from_str`; the contract claims that it accepts exactly
/// the texts whose bytes `header_value_ok` allows.
#[verifier::external_body]
fn header_value_valid(value: &str) -> (r: bool)
    ensures
        r == header_value_ok(encode_utf8(value@)),
{
    hyper::header::HeaderValue::from_str(value).is_ok()
}

/// Parses the name and value and sets the header to that single value.
///
/// Calls `HeaderName::from_bytes`, `HeaderValue::from_str` and
/// `HeaderMap::try_insert`; the contract claims that the name and value are
/// checked as `header_key` and `header_value_ok` say, and that on success the
/// values of the name are replaced by this one (in place, or as a new last
/// entry). On failure the map is unchanged. The map refuses for being full only
/// when it holds at least `MAP_FULL_SAFE` names: `try_reserve_one` can fail
/// only when the table must grow past `MAX_SIZE` (`1 << 15`) slots, which takes
/// at least `MAX_SIZE / 5` names, and `try_insert_entry` only at `MAX_SIZE`.
#[verifier::external_body]
fn header_insert(m: &mut HeaderMap, name: &str, value: &str) -> (r: Result<(), HeaderError>)
    ensures
        match header_key(name@) {
            Some(k) => if header_value_ok(encode_utf8(value@)) {
                match r {
                    Ok(()) => header_entries(*final(m)) == insert_entry(
                        header_entries(*old(m)),
                        k,
                        encode_utf8(value@),
                    ) && names_distinct(header_entries(*final(m))),
                    Err(e) => e == HeaderError::Full && header_entries(*final(m)) == header_entries(
                        *old(m),
                    ) && header_entries(*old(m)).len() >= MAP_FULL_SAFE,
                }
            } else {
                r == Err::<(), HeaderError>(HeaderError::InvalidValue) && header_entries(*final(m))
                    == header_entries(*old(m))
            },
            None => r == Err::<(), HeaderError>(HeaderError::InvalidName) && header_entries(
                *final(m),
            ) == header_entries(*old(m)),
        },
{
    let n = hyper::header::HeaderName::from_bytes(name.as_bytes()).map_err(|_| HeaderError::InvalidName)?;
    let v = hyper::header::HeaderValue::from_str(value).map_err(|_| HeaderError::InvalidValue)?;
    m.try_insert(n, v).map(|_| ()).map_err(|_| HeaderError::Full)
}

/// Parses the name and value and adds the value behind those of the header.
///
/// Calls `HeaderName::from_bytes`, `HeaderValue::from_str` and
/// `HeaderMap::try_append`; the contract claims the checks of
/// [`header_insert`], and that on success the value is added last among the
/// values of the name (as a new last entry for a new name). On failure the map
/// is unchanged; as for [`header_insert`], a full map is reported only from
/// `MAP_FULL_SAFE` names on.
#[verifier::external_body]
fn header_append(m: &mut HeaderMap, name: &str, value: &str) -> (r: Result<(), HeaderError>)
    ensures
        match header_key(name@) {
            Some(k) => if header_value_ok(encode_utf8(value@)) {
                match r {
                    Ok(()) => header_entries(*final(m)) == append_entry(
                        header_entries(*old(m)),
                        k,
                        encode_utf8(value@),
                    ) && names_distinct(header_entries(*final(m))),
                    Err(e) => e == HeaderError::Full && header_entries(*final(m)) == header_entries(
                        *old(m),
                    ) && header_entries(*old(m)).len() >= MAP_FULL_SAFE,
                }
            } else {
                r == Err::<(), HeaderError>(HeaderError::InvalidValue) && header_entries(*final(m))
                    == header_entries(*old(m))
            },
            None => r == Err::<(), HeaderError>(HeaderError::InvalidName) && header_entries(
                *final(m),
            ) == header_entries(*old(m)),
        },
{
    let n = hyper::header::HeaderName::from_bytes(name.as_bytes()).map_err(|_| HeaderError::InvalidName)?;
    let v = hyper::header::HeaderValue::from_str(value).map_err(|_| HeaderError::InvalidValue)?;
    m.try_append(n, v).map(|_| ()).map_err(|_| HeaderError::Full)
}

/// Returns a header value by name (case-insensitive), when it reads as text.
pub fn get_header_in<'a>(m: &'a HeaderMap, name: &str) -> (r: Option<&'a str>)
    ensures
        match header_key(name@) {
            Some(k) => match first_value(header_entries(*m), k) {
                Some(v) => if header_visible(v) {
                    r matches Some(s) && s@ == ascii_text(v)
                } else {
                    r is None
                },
                None => r is None,
            },
            None => r is None,
        },
{
    header_first_text(m, name)
}

/// The bytes of a text.
fn text_bytes(s: &str) -> (r: Vec<u8>)
    ensures
        r@ == encode_utf8(s@),
{
    let b = s.as_bytes();
    let mut v: Vec<u8> = Vec::new();
    v.extend_from_slice(b);
    assert(v@ =~= encode_utf8(s@));
    v
}

/// Whether two byte sequences are equal.
fn bytes_eq(a: &[u8], b: &[u8]) -> (r: bool)
    ensures
        r == (a@ == b@),
{
    if a.len() != b.len() {
        return false;
    }
    let mut i: usize = 0;
    while i < a.len()
        invariant
            a@.len() == b@.len(),
            i <= a@.len(),
            forall|j: int| 0 <= j < i ==> a@[j] == b@[j],
        decreases a@.len() - i,
    {
        if a[i] != b[i] {
            return false;
        }
        i = i + 1;
    }
    assert(a@ =~= b@);
    true
}

/// Sets a header, overwriting all its values, reporting whether the map
/// changed: afterwards the name holds exactly the one value `value`.
///
/// When the header already holds exactly that one value, nothing changes and
/// the result is `Ok(false)`.
///
/// # Errors
/// When the name or the value is invalid, or the map is full (which it is not
/// below `MAP_FULL_SAFE` names); the map is then unchanged.
pub fn set_header_in(m: &mut HeaderMap, name: &str, value: &str) -> (r: Result<bool, HeaderError>)
    ensures
        match header_key(name@) {
            Some(k) => if !header_value_ok(encode_utf8(value@)) {
                r == Err::<bool, HeaderError>(HeaderError::InvalidValue) && header_entries(
                    *final(m),
                ) == header_entries(*old(m))
            } else if entry_values(header_entries(*old(m)), k) == seq![encode_utf8(value@)] {
                r == Ok::<bool, HeaderError>(false) && header_entries(*final(m)) == header_entries(
                    *old(m),
                )
            } else {
                match r {
                    Ok(changed) => changed && header_entries(*final(m)) == insert_entry(
                        header_entries(*old(m)),
                        k,
                        encode_utf8(value@),
                    ) && names_distinct(header_entries(*final(m))),
                    Err(e) => e == HeaderError::Full && header_entries(*final(m)) == header_entries(
                        *old(m),
                    ) && header_entries(*old(m)).len() >= MAP_FULL_SAFE,
                }
            },
            None => r == Err::<bool, HeaderError>(HeaderError::InvalidName) && header_entries(
                *final(m),
            ) == header_entries(*old(m)),
        },
        r is Ok ==> changes_only(
            header_entries(*old(m)),
            header_entries(*final(m)),
            header_key(name@)->0,
            seq![encode_utf8(value@)],
        ),
{
    proof {
        if let Some(k) = header_key(name@) {
            lemma_write_effects(header_entries(*m), k, encode_utf8(value@));
        }
    }
    if !header_name_valid(name) {
        return Err(HeaderError::InvalidName);
    }
    if !header_value_valid(value) {
        return Err(HeaderError::InvalidValue);
    }
    let wanted = text_bytes(value);
    let current = header_values(m, name);
    if current.len() == 1 && bytes_eq(current[0].as_slice(), wanted.as_slice()) {
        proof {
            let k = header_key(name@)->0;
            assert(entry_values(header_entries(*m), k) =~= seq![encode_utf8(value@)]);
        }
        return Ok(false);
    }
    proof {
        let k = header_key(name@)->0;
        let ev = entry_values(header_entries(*m), k);
        if ev == seq![encode_utf8(value@)] {
            assert(current@.len() == 1);
            assert(current@[0]@ == ev[0]);
        }
    }
    match header_insert(m, name, value) {
        Ok(()) => Ok(true),
        Err(e) => Err(e),
    }
}

/// Appends a header value (the header may hold several): the values of the
/// name are its old ones followed by `value`.
///
/// # Errors
/// When the name or the value is invalid, or the map is full (which it is not
/// below `MAP_FULL_SAFE` names); the map is then unchanged.
pub fn add_header_in(m: &mut HeaderMap, name: &str, value: &str) -> (r: Result<(), HeaderError>)
    ensures
        match header_key(name@) {
            Some(k) => if header_value_ok(encode_utf8(value@)) {
                match r {
                    Ok(()) => header_entries(*final(m)) == append_entry(
                        header_entries(*old(m)),
                        k,
                        encode_utf8(value@),
                    ) && names_distinct(header_entries(*final(m))),
                    Err(e) => e == HeaderError::Full && header_entries(*final(m)) == header_entries(
                        *old(m),
                    ) && header_entries(*old(m)).len() >= MAP_FULL_SAFE,
                }
            } else {
                r == Err::<(), HeaderError>(HeaderError::InvalidValue) && header_entries(*final(m))
                    == header_entries(*old(m))
            },
            None => r == Err::<(), HeaderError>(HeaderError::InvalidName) && header_entries(
                *final(m),
            ) == header_entries(*old(m)),
        },
        r is Ok ==> changes_only(
            header_entries(*old(m)),
            header_entries(*final(m)),
            header_key(name@)->0,
            entry_values(header_entries(*old(m)), header_key(name@)->0).push(encode_utf8(value@)),
        ),
{
    proof {
        if let Some(k) = header_key(name@) {
            lemma_write_effects(header_entries(*m), k, encode_utf8(value@));
        }
    }
    header_append(m, name, value)
}

/// The bytes of a text of ASCII chars.
pub open spec fn ascii_bytes(s: Seq<char>) -> Seq<u8> {
    s.map_values(|c: char| (c as u32) as u8)
}

/// The UTF-8 encoding of a text of ASCII chars is its bytes.
proof fn lemma_encode_ascii_text(s: Seq<char>)
    requires
        forall|i: int| 0 <= i < s.len() ==> (#[trigger] s[i] as u32) < 128,
    ensures
        encode_utf8(s) == ascii_bytes(s),
    decreases s.len(),
{
    if s.len() > 0 {
        let u = s[0] as u32;
        assert((s[0] as u32) < 128);
        lemma_encode_ascii_text(s.drop_first());
        assert(leading_byte_width_1(u) == u as u8) by (bit_vector)
            requires
                u < 128,
        ;
        assert(encode_scalar(u) == seq![u as u8]);
        assert(ascii_bytes(s) =~= seq![u as u8] + ascii_bytes(s.drop_first()));
    }
}

/// Whether a char may stand in a lower-case header name used here: a
/// lower-case letter or `-`.
pub open spec fn name_char(c: char) -> bool {
    ('a' <= c && c <= 'z') || c == '-'
}

/// A name of lower-case letters and `-` is its own key.
proof fn lemma_lower_name_key(s: Seq<char>)
    requires
        1 <= s.len() <= 65535,
        forall|i: int| 0 <= i < s.len() ==> name_char(#[trigger] s[i]),
    ensures
        header_key(s) == Some(ascii_bytes(s)),
{
    lemma_encode_ascii_text(s);
    let b = encode_utf8(s);
    assert forall|i: int| 0 <= i < b.len() implies #[trigger] header_name_byte(b[i]) == Some(b[i]) by {
        assert(name_char(s[i]));
        assert(b[i] == (s[i] as u32) as u8);
    }
    assert(b.map_values(|x: u8| header_name_byte(x)->0) =~= b);
}

/// A value of visible ASCII chars may stand in a header.
proof fn lemma_visible_value(s: Seq<char>)
    requires
        forall|i: int| 0 <= i < s.len() ==> ' ' <= #[trigger] s[i] && s[i] <= '~',
    ensures
        header_value_ok(encode_utf8(s)),
        encode_utf8(s) == ascii_bytes(s),
{
    lemma_encode_ascii_text(s);
    let b = encode_utf8(s);
    assert forall|i: int| 0 <= i < b.len() implies (#[trigger] b[i] >= 32 && b[i] != 127) || b[i] == 9 by {
        assert(' ' <= s[i] && s[i] <= '~');
        assert(b[i] == (s[i] as u32) as u8);
    }
}

/// The entries of a response that accepts a WebSocket upgrade: `Connection:
/// Upgrade` and `Upgrade: websocket` added behind what the entries hold, the
/// accept key added as `Sec-WebSocket-Accept` when there is one, and
/// `Access-Control-Allow-Origin` set to `*`.
pub open spec fn upgrade_entries(es: Seq<(Seq<u8>, Seq<Seq<u8>>)>, accept: Option<Seq<u8>>) -> Seq<
    (Seq<u8>, Seq<Seq<u8>>),
> {
    let e1 = append_entry(es, ascii_bytes("connection"@), ascii_bytes("Upgrade"@));
    let e2 = append_entry(e1, ascii_bytes("upgrade"@), ascii_bytes("websocket"@));
    let e3 = match accept {
        Some(a) => append_entry(e2, ascii_bytes("sec-websocket-accept"@), a),
        None => e2,
    };
    insert_entry(e3, ascii_bytes("access-control-allow-origin"@), ascii_bytes("*"@))
}

/// Adds the headers of a response that accepts a WebSocket upgrade (see
/// [`upgrade_entries`]); `accept` is the `Sec-WebSocket-Accept` value.
///
/// # Errors
/// [`HeaderError::InvalidValue`] when the accept value may not stand in a
/// header; [`HeaderError::Full`] when the map cannot take more headers.
pub fn upgrade_response_headers(headers: &mut HeaderMap, accept: Option<&str>) -> (r: Result<
    (),
    HeaderError,
>)
    ensures
        match r {
            Ok(()) => header_entries(*final(headers)) == upgrade_entries(
                header_entries(*old(headers)),
                match accept {
                    Some(a) => Some(encode_utf8(a@)),
                    None => None,
                },
            ),
            Err(e) => (e == HeaderError::Full && header_entries(*old(headers)).len() + 3
                >= MAP_FULL_SAFE) || (e == HeaderError::InvalidValue && match accept {
                Some(a) => !header_value_ok(encode_utf8(a@)),
                None => false,
            }),
        },
        (match accept {
            Some(a) => !header_value_ok(encode_utf8(a@)),
            None => false,
        }) ==> r is Err,
{
    proof {
        reveal_strlit("connection");
        reveal_strlit("Upgrade");
        reveal_strlit("upgrade");
        reveal_strlit("websocket");
        reveal_strlit("sec-websocket-accept");
        reveal_strlit("access-control-allow-origin");
        reveal_strlit("*");
        let n1 = "connection"@;
        assert forall|i: int| 0 <= i < n1.len() implies name_char(#[trigger] n1[i]) by {
            assert(i == 0 || i == 1 || i == 2 || i == 3 || i == 4 || i == 5 || i == 6 || i == 7
                || i == 8 || i == 9);
        }
        lemma_lower_name_key(n1);
        let v1 = "Upgrade"@;
        assert forall|i: int| 0 <= i < v1.len() implies ' ' <= #[trigger] v1[i] && v1[i] <= '~' by {
            assert(i == 0 || i == 1 || i == 2 || i == 3 || i == 4 || i == 5 || i == 6);
        }
        lemma_visible_value(v1);
        let n2 = "upgrade"@;
        assert forall|i: int| 0 <= i < n2.len() implies name_char(#[trigger] n2[i]) by {
            assert(i == 0 || i == 1 || i == 2 || i == 3 || i == 4 || i == 5 || i == 6);
        }
        lemma_lower_name_key(n2);
        let v2 = "websocket"@;
        assert forall|i: int| 0 <= i < v2.len() implies ' ' <= #[trigger] v2[i] && v2[i] <= '~' by {
            assert(i == 0 || i == 1 || i == 2 || i == 3 || i == 4 || i == 5 || i == 6 || i == 7
                || i == 8);
        }
        lemma_visible_value(v2);
        let n3 = "sec-websocket-accept"@;
        assert forall|i: int| 0 <= i < n3.len() implies name_char(#[trigger] n3[i]) by {
            assert(0 <= i < 20);
            assert(i == 0 || i == 1 || i == 2 || i == 3 || i == 4 || i == 5 || i == 6 || i == 7
                || i == 8 || i == 9 || i == 10 || i == 11 || i == 12 || i == 13 || i == 14 || i
                == 15 || i == 16 || i == 17 || i == 18 || i == 19);
        }
        lemma_lower_name_key(n3);
        let n4 = "access-control-allow-origin"@;
        assert forall|i: int| 0 <= i < n4.len() implies name_char(#[trigger] n4[i]) by {
            assert(0 <= i < 27);
            assert(i == 0 || i == 1 || i == 2 || i == 3 || i == 4 || i == 5 || i == 6 || i == 7
                || i == 8 || i == 9 || i == 10 || i == 11 || i == 12 || i == 13 || i == 14 || i
                == 15 || i == 16 || i == 17 || i == 18 || i == 19 || i == 20 || i == 21 || i == 22
                || i == 23 || i == 24 || i == 25 || i == 26);
        }
        lemma_lower_name_key(n4);
        let v4 = "*"@;
        assert forall|i: int| 0 <= i < v4.len() implies ' ' <= #[trigger] v4[i] && v4[i] <= '~' by {
            assert(i == 0);
        }
        lemma_visible_value(v4);
    }
    let ghost e0 = header_entries(*headers);
    match add_header_in(headers, "connection", "Upgrade") {
        Ok(()) => {},
        Err(e) => {
            return Err(e);
        },
    }
    let ghost e1 = header_entries(*headers);
    proof {
        lemma_entry_growth(e0, ascii_bytes("connection"@), ascii_bytes("Upgrade"@));
    }
    match add_header_in(headers, "upgrade", "websocket") {
        Ok(()) => {},
        Err(e) => {
            return Err(e);
        },
    }
    let ghost e2 = header_entries(*headers);
    proof {
        lemma_entry_growth(e1, ascii_bytes("upgrade"@), ascii_bytes("websocket"@));
    }
    match accept {
        Some(a) => {
            match add_header_in(headers, "sec-websocket-accept", a) {
                Ok(()) => {},
                Err(e) => {
                    return Err(e);
                },
            }
            proof {
                lemma_entry_growth(e2, ascii_bytes("sec-websocket-accept"@), encode_utf8(a@));
            }
        },
        None => {},
    }
    match header_insert(headers, "access-control-allow-origin", "*") {
        Ok(()) => Ok(()),
        Err(e) => Err(e),
    }
}

/// Setting or appending a value adds at most one name.
proof fn lemma_entry_growth(es: Seq<(Seq<u8>, Seq<Seq<u8>>)>, key: Seq<u8>, v: Seq<u8>)
    ensures
        append_entry(es, key, v).len() <= es.len() + 1,
        insert_entry(es, key, v).len() <= es.len() + 1,
{
}

} // verus!
