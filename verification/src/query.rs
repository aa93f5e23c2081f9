//! URL query parameters: `name=value` pairs separated by `&`, both sides
//! URL-decoded; a pair without `=` is a flag with an empty value.

use crate::text::{
    chars_eq, chars_of, find_char, first_index, split_chars, split_on, string_from_chars,
    sub_chars,
};
use crate::utils::{percent_decoded, plus_as_space, url_decode, url_decoded};
use vstd::utf8::{decode_utf8, encode_utf8, valid_utf8};
use vstd::prelude::*;

verus! {

/// The text of an optional string.
pub open spec fn text_opt(q: Option<&str>) -> Option<Seq<char>> {
    match q {
        Some(s) => Some(s@),
        None => None,
    }
}

/// A pair split at its first `=` into key and value.
pub open spec fn key_value(pair: Seq<char>) -> Option<(Seq<char>, Seq<char>)> {
    match first_index(pair, '=') {
        Some(i) => Some((pair.take(i), pair.skip(i + 1))),
        None => None,
    }
}

/// What one pair says about the parameter `name` to a single-value lookup:
/// nothing when its key does not decode to `name`; else the decoded value
/// (`None` when the value does not decode), or the empty text for a flag.
pub open spec fn pair_settles(pair: Seq<char>, name: Seq<char>) -> Option<Option<Seq<char>>> {
    match key_value(pair) {
        Some((k, v)) => if url_decoded(k) == Some(name) {
            Some(url_decoded(v))
        } else {
            None
        },
        None => if url_decoded(pair) == Some(name) {
            Some(Some(Seq::empty()))
        } else {
            None
        },
    }
}

/// The value of `name` in a list of pairs: decided by the first pair that
/// settles it.
pub open spec fn argument_in(pairs: Seq<Seq<char>>, name: Seq<char>) -> Option<Seq<char>>
    decreases pairs.len(),
{
    if pairs.len() == 0 {
        None
    } else {
        match pair_settles(pairs[0], name) {
            Some(r) => r,
            None => argument_in(pairs.drop_first(), name),
        }
    }
}

/// The value of parameter `name` in a query (first occurrence), if any.
pub open spec fn query_argument(query: Option<Seq<char>>, name: Seq<char>) -> Option<Seq<char>> {
    match query {
        Some(q) => argument_in(split_on(q, '&'), name),
        None => None,
    }
}

/// The value that one pair contributes to the list of values of `name`.
pub open spec fn pair_value(pair: Seq<char>, name: Seq<char>) -> Option<Seq<char>> {
    match pair_settles(pair, name) {
        Some(r) => r,
        None => None,
    }
}

/// All values of `name` in a list of pairs, in order.
pub open spec fn values_in(pairs: Seq<Seq<char>>, name: Seq<char>) -> Seq<Seq<char>>
    decreases pairs.len(),
{
    if pairs.len() == 0 {
        Seq::empty()
    } else {
        values_in(pairs.drop_last(), name) + match pair_value(pairs.last(), name) {
            Some(v) => seq![v],
            None => Seq::empty(),
        }
    }
}

/// All values of parameter `name` in a query, in order.
pub open spec fn query_arguments(query: Option<Seq<char>>, name: Seq<char>) -> Seq<Seq<char>> {
    match query {
        Some(q) => values_in(split_on(q, '&'), name),
        None => Seq::empty(),
    }
}

/// The decoded entry a pair gives, if both of its sides decode; a non-empty
/// pair without `=` is a flag with an empty value.
pub open spec fn pair_entry(pair: Seq<char>) -> Option<(Seq<char>, Seq<char>)> {
    match key_value(pair) {
        Some((k, v)) => match (url_decoded(k), url_decoded(v)) {
            (Some(a), Some(b)) => Some((a, b)),
            _ => None,
        },
        None => if pair.len() > 0 {
            match url_decoded(pair) {
                Some(a) => Some((a, Seq::empty())),
                None => None,
            }
        } else {
            None
        },
    }
}

/// Whether `entries` has an entry for key `k`.
pub open spec fn has_key(entries: Seq<(Seq<char>, Seq<char>)>, k: Seq<char>) -> bool {
    exists|i: int| 0 <= i < entries.len() && #[trigger] entries[i].0 == k
}

/// The entries of a list of pairs, in order of first appearance of each key;
/// a key that appears again keeps its first value.
pub open spec fn entries_in(pairs: Seq<Seq<char>>) -> Seq<(Seq<char>, Seq<char>)>
    decreases pairs.len(),
{
    if pairs.len() == 0 {
        Seq::empty()
    } else {
        let e = entries_in(pairs.drop_last());
        match pair_entry(pairs.last()) {
            Some((k, v)) => if has_key(e, k) {
                e
            } else {
                e.push((k, v))
            },
            None => e,
        }
    }
}

/// All parameters of a query with their first values.
pub open spec fn query_entries(query: Option<Seq<char>>) -> Seq<(Seq<char>, Seq<char>)> {
    match query {
        Some(q) => entries_in(split_on(q, '&')),
        None => Seq::empty(),
    }
}

/// URL-decodes a piece of a query.
fn decode_chars(s: &[char]) -> (r: Result<Vec<char>, String>)
    ensures
        match r {
            Ok(v) => url_decoded(s@) == Some(v@),
            Err(_) => url_decoded(s@) is None,
        },
{
    let text = string_from_chars(s);
    match url_decode(text.as_str()) {
        Ok(d) => Ok(chars_of(d.as_str())),
        Err(e) => Err(e),
    }
}

/// Splits a pair at its first `=`.
fn split_pair(pair: &[char]) -> (r: Option<(Vec<char>, Vec<char>)>)
    ensures
        match key_value(pair@) {
            Some((k, v)) => r matches Some((a, b)) && a@ == k && b@ == v,
            None => r is None,
        },
{
    match find_char(pair, '=') {
        Some(i) => {
            let n = pair.len();
            assert(i < n);
            let k = sub_chars(pair, 0, i);
            let v = sub_chars(pair, i + 1, n);
            assert(k@ =~= pair@.take(i as int));
            assert(v@ =~= pair@.skip(i + 1));
            Some((k, v))
        },
        None => None,
    }
}

/// What one pair says about `name` to a single-value lookup.
fn settle_pair(pair: &[char], name: &[char]) -> (r: Option<Option<Vec<char>>>)
    ensures
        match pair_settles(pair@, name@) {
            Some(Some(v)) => r matches Some(Some(w)) && w@ == v,
            Some(None) => r == Some(None::<Vec<char>>),
            None => r is None,
        },
{
    match split_pair(pair) {
        Some((k, v)) => {
            match decode_chars(k.as_slice()) {
                Ok(dk) => {
                    if chars_eq(dk.as_slice(), name) {
                        match decode_chars(v.as_slice()) {
                            Ok(dv) => Some(Some(dv)),
                            Err(_) => Some(None),
                        }
                    } else {
                        None
                    }
                },
                Err(_) => None,
            }
        },
        None => {
            match decode_chars(pair) {
                Ok(dk) => {
                    if chars_eq(dk.as_slice(), name) {
                        Some(Some(Vec::new()))
                    } else {
                        None
                    }
                },
                Err(_) => None,
            }
        },
    }
}

/// The chars of a query, if there is one.
fn query_chars(query: Option<&str>) -> (r: Option<Vec<char>>)
    ensures
        match query {
            Some(q) => r matches Some(v) && v@ == q@,
            None => r is None,
        },
{
    match query {
        Some(q) => Some(chars_of(q)),
        None => None,
    }
}

/// Returns the value (URL-decoded) of the first occurrence of parameter `name`
/// in `query`, or `None` when it does not occur.
///
/// The first pair whose key decodes to `name` decides: its decoded value, the
/// empty text for a pair without `=`, or `None` when its value does not decode.
pub fn query_get_argument(query: Option<&str>, name: &str) -> (r: Option<String>)
    ensures
        match query_argument(text_opt(query), name@) {
            Some(v) => r matches Some(s) && s@ == v,
            None => r is None,
        },
{
    let q = match query_chars(query) {
        Some(q) => q,
        None => return None,
    };
    let pairs = split_chars(q.as_slice(), '&');
    let name_chars = chars_of(name);
    let ghost all = split_on(q@, '&');
    assert(query_argument(text_opt(query), name@) == argument_in(all, name@));
    assert(all.skip(0) =~= all);
    let mut i: usize = 0;
    while i < pairs.len()
        invariant
            i <= pairs@.len(),
            pairs@.len() == all.len(),
            name_chars@ == name@,
            forall|j: int| 0 <= j < pairs@.len() ==> #[trigger] pairs@[j]@ == all[j],
            argument_in(all, name@) == argument_in(all.skip(i as int), name@),
            query_argument(text_opt(query), name@) == argument_in(all, name@),
        decreases pairs@.len() - i,
    {
        proof {
            assert(all.skip(i as int).drop_first() =~= all.skip(i + 1));
            assert(all.skip(i as int)[0] == all[i as int]);
            assert(pairs@[i as int]@ == all[i as int]);
            assert(argument_in(all.skip(i as int), name@) == match pair_settles(all[i as int], name@) {
                Some(r) => r,
                None => argument_in(all.skip(i + 1), name@),
            });
        }
        match settle_pair(pairs[i].as_slice(), name_chars.as_slice()) {
            Some(Some(v)) => {
                return Some(string_from_chars(v.as_slice()));
            },
            Some(None) => {
                return None;
            },
            None => {},
        }
        i = i + 1;
    }
    assert(all.skip(i as int) =~= Seq::<Seq<char>>::empty());
    None
}

/// Returns all values (URL-decoded) of parameter `name` in `query`, in order.
///
/// Pairs whose value does not decode contribute nothing.
pub fn query_get_arguments(query: Option<&str>, name: &str) -> (r: Vec<String>)
    ensures
        r@.len() == query_arguments(text_opt(query), name@).len(),
        forall|i: int|
            0 <= i < r@.len() ==> #[trigger] r@[i]@ == query_arguments(
                text_opt(query),
                name@,
            )[i],
{
    let mut out: Vec<String> = Vec::new();
    let q = match query_chars(query) {
        Some(q) => q,
        None => return out,
    };
    let pairs = split_chars(q.as_slice(), '&');
    let name_chars = chars_of(name);
    let ghost all = split_on(q@, '&');
    let mut i: usize = 0;
    while i < pairs.len()
        invariant
            i <= pairs@.len(),
            pairs@.len() == all.len(),
            name_chars@ == name@,
            forall|j: int| 0 <= j < pairs@.len() ==> #[trigger] pairs@[j]@ == all[j],
            out@.len() == values_in(all.take(i as int), name@).len(),
            forall|j: int|
                0 <= j < out@.len() ==> #[trigger] out@[j]@ == values_in(
                    all.take(i as int),
                    name@,
                )[j],
        decreases pairs@.len() - i,
    {
        proof {
            assert(all.take(i + 1).drop_last() =~= all.take(i as int));
            assert(all.take(i + 1).last() == all[i as int]);
        }
        match settle_pair(pairs[i].as_slice(), name_chars.as_slice()) {
            Some(Some(v)) => {
                out.push(string_from_chars(v.as_slice()));
            },
            _ => {},
        }
        i = i + 1;
    }
    proof {
        assert(all.take(i as int) =~= all);
    }
    out
}

/// Whether `entries` has an entry with key `k`.
fn find_key(entries: &Vec<(String, String)>, k: &[char]) -> (r: bool)
    ensures
        r == has_key(entries@.map_values(|e: (String, String)| (e.0@, e.1@)), k@),
{
    let ghost view = entries@.map_values(|e: (String, String)| (e.0@, e.1@));
    let mut i: usize = 0;
    while i < entries.len()
        invariant
            i <= entries@.len(),
            view == entries@.map_values(|e: (String, String)| (e.0@, e.1@)),
            forall|j: int| 0 <= j < i ==> #[trigger] view[j].0 != k@,
        decreases entries@.len() - i,
    {
        let key = chars_of(entries[i].0.as_str());
        if chars_eq(key.as_slice(), k) {
            assert(view[i as int].0 == k@);
            return true;
        }
        i = i + 1;
    }
    false
}

/// Returns all parameters of `query` (URL-decoded), each with the value of its
/// first occurrence, in order of first appearance.
///
/// Pairs whose key or value does not decode, and empty pairs, are skipped.
pub fn query_get_all_arguments(query: Option<&str>) -> (r: Vec<(String, String)>)
    ensures
        r@.map_values(|e: (String, String)| (e.0@, e.1@)) == query_entries(
            text_opt(query),
        ),
{
    let mut out: Vec<(String, String)> = Vec::new();
    let q = match query_chars(query) {
        Some(q) => q,
        None => {
            assert(out@.map_values(|e: (String, String)| (e.0@, e.1@)) =~= Seq::empty());
            return out;
        },
    };
    let pairs = split_chars(q.as_slice(), '&');
    let ghost all = split_on(q@, '&');
    let mut i: usize = 0;
    assert(out@.map_values(|e: (String, String)| (e.0@, e.1@)) =~= entries_in(all.take(0)));
    while i < pairs.len()
        invariant
            i <= pairs@.len(),
            pairs@.len() == all.len(),
            forall|j: int| 0 <= j < pairs@.len() ==> #[trigger] pairs@[j]@ == all[j],
            out@.map_values(|e: (String, String)| (e.0@, e.1@)) == entries_in(all.take(i as int)),
        decreases pairs@.len() - i,
    {
        proof {
            assert(all.take(i + 1).drop_last() =~= all.take(i as int));
            assert(all.take(i + 1).last() == all[i as int]);
        }
        let entry = pair_to_entry(pairs[i].as_slice());
        match entry {
            Some((k, v)) => {
                if !find_key(&out, k.as_slice()) {
                    let ghost before = out@;
                    out.push((string_from_chars(k.as_slice()), string_from_chars(v.as_slice())));
                    assert(out@.map_values(|e: (String, String)| (e.0@, e.1@)) =~= before.map_values(
                        |e: (String, String)| (e.0@, e.1@),
                    ).push((k@, v@)));
                }
            },
            None => {},
        }
        i = i + 1;
    }
    proof {
        assert(all.take(i as int) =~= all);
    }
    out
}

/// The decoded entry of one pair.
fn pair_to_entry(pair: &[char]) -> (r: Option<(Vec<char>, Vec<char>)>)
    ensures
        match pair_entry(pair@) {
            Some((k, v)) => r matches Some((a, b)) && a@ == k && b@ == v,
            None => r is None,
        },
{
    match split_pair(pair) {
        Some((k, v)) => {
            match (decode_chars(k.as_slice()), decode_chars(v.as_slice())) {
                (Ok(a), Ok(b)) => Some((a, b)),
                _ => None,
            }
        },
        None => {
            if pair.len() > 0 {
                match decode_chars(pair) {
                    Ok(a) => Some((a, Vec::new())),
                    Err(_) => None,
                }
            } else {
                None
            }
        },
    }
}

/// Each key occurs once among the entries of a list of pairs.
pub proof fn lemma_entries_keys_distinct(pairs: Seq<Seq<char>>)
    ensures
        forall|i: int, j: int|
            0 <= i < j < entries_in(pairs).len() ==> #[trigger] entries_in(pairs)[i].0
                != #[trigger] entries_in(pairs)[j].0,
    decreases pairs.len(),
{
    if pairs.len() > 0 {
        let e = entries_in(pairs.drop_last());
        lemma_entries_keys_distinct(pairs.drop_last());
        match pair_entry(pairs.last()) {
            Some((k, v)) => {
                if !has_key(e, k) {
                    let f = e.push((k, v));
                    assert forall|i: int, j: int| 0 <= i < j < f.len() implies #[trigger] f[i].0
                        != #[trigger] f[j].0 by {
                        if j == e.len() {
                            assert(e[i].0 != k);
                        } else {
                            assert(e[i].0 != e[j].0);
                        }
                    }
                }
            },
            None => {},
        }
    }
}

/// A single-value lookup gives the first of all the values of a parameter:
/// whenever it finds a value, the list of values starts with it.
pub proof fn lemma_argument_is_first_value(pairs: Seq<Seq<char>>, name: Seq<char>)
    ensures
        argument_in(pairs, name) matches Some(v) ==> values_in(pairs, name).len() > 0
            && values_in(pairs, name)[0] == v,
    decreases pairs.len(),
{
    if pairs.len() > 0 {
        lemma_argument_is_first_value(pairs.drop_first(), name);
        lemma_values_in_front(pairs, name);
    }
}

/// The values of a non-empty list of pairs: those of the first pair, then those
/// of the rest.
proof fn lemma_values_in_front(pairs: Seq<Seq<char>>, name: Seq<char>)
    requires
        pairs.len() > 0,
    ensures
        values_in(pairs, name) == match pair_value(pairs[0], name) {
            Some(v) => seq![v],
            None => Seq::<Seq<char>>::empty(),
        } + values_in(pairs.drop_first(), name),
    decreases pairs.len(),
{
    let head = match pair_value(pairs[0], name) {
        Some(v) => seq![v],
        None => Seq::<Seq<char>>::empty(),
    };
    if pairs.len() == 1 {
        assert(pairs.drop_last() =~= Seq::<Seq<char>>::empty());
        assert(pairs.drop_first() =~= Seq::<Seq<char>>::empty());
        assert(values_in(Seq::<Seq<char>>::empty(), name) =~= Seq::<Seq<char>>::empty());
        assert(pairs.last() == pairs[0]);
        assert(values_in(pairs, name) =~= head);
    } else {
        lemma_values_in_front(pairs.drop_last(), name);
        assert(pairs.drop_last().drop_first() =~= pairs.drop_first().drop_last());
        assert(pairs.drop_first().last() == pairs.last());
        assert(pairs.drop_last()[0] == pairs[0]);
        assert(values_in(pairs, name) =~= head + values_in(pairs.drop_first(), name));
    }
}

/// Every non-empty pair of a list gives an entry: its key and value decode.
pub open spec fn pairs_decode(pairs: Seq<Seq<char>>) -> bool {
    forall|i: int|
        0 <= i < pairs.len() ==> (#[trigger] pairs[i]).len() == 0 || pair_entry(pairs[i]) is Some
}

/// A pair is of use to a lookup of `k` that agrees with the entries: it gives
/// an entry, or it is empty while `k` is not.
pub open spec fn pair_fits(p: Seq<char>, k: Seq<char>) -> bool {
    pair_entry(p) is Some || (p.len() == 0 && k.len() > 0)
}

/// Every pair of a list is of use to a lookup of `k`.
pub open spec fn pairs_fit(pairs: Seq<Seq<char>>, k: Seq<char>) -> bool {
    forall|i: int| 0 <= i < pairs.len() ==> #[trigger] pair_fits(pairs[i], k)
}

/// The empty text decodes to itself.
proof fn lemma_empty_decodes()
    ensures
        url_decoded(Seq::<char>::empty()) == Some(Seq::<char>::empty()),
{
    let e = Seq::<char>::empty();
    assert(plus_as_space(e) =~= e);
    assert(encode_utf8(e) =~= Seq::<u8>::empty());
    assert(percent_decoded(Seq::<u8>::empty()) =~= Seq::<u8>::empty());
    assert(valid_utf8(Seq::<u8>::empty()));
    assert(decode_utf8(Seq::<u8>::empty()) =~= e);
}

/// The value of the entry for key `k`, if any.
pub open spec fn entry_value(entries: Seq<(Seq<char>, Seq<char>)>, k: Seq<char>) -> Option<
    Seq<char>,
>
    decreases entries.len(),
{
    if entries.len() == 0 {
        None
    } else if entries[0].0 == k {
        Some(entries[0].1)
    } else {
        entry_value(entries.drop_first(), k)
    }
}

/// For a pair that gives an entry, a lookup of `k` is settled exactly by a pair
/// whose entry has key `k`, with that entry's value.
proof fn lemma_settles_entry(p: Seq<char>, k: Seq<char>)
    requires
        pair_fits(p, k),
    ensures
        pair_settles(p, k) == match pair_entry(p) {
            Some((a, b)) => if a == k {
                Some(Some(b))
            } else {
                None::<Option<Seq<char>>>
            },
            None => None,
        },
{
    if p.len() == 0 {
        lemma_empty_decodes();
        assert(key_value(p) is None);
    }
}

/// A lookup in pairs that all give entries, read from the back: the earlier
/// pairs decide if they can, else the last one.
proof fn lemma_argument_in_back(pairs: Seq<Seq<char>>, k: Seq<char>)
    requires
        pairs.len() > 0,
        pairs_fit(pairs, k),
    ensures
        argument_in(pairs, k) == match argument_in(pairs.drop_last(), k) {
            Some(v) => Some(v),
            None => match pair_entry(pairs.last()) {
                Some((a, b)) => if a == k {
                    Some(b)
                } else {
                    None
                },
                None => None,
            },
        },
    decreases pairs.len(),
{
    assert(pair_fits(pairs[0], k));
    lemma_settles_entry(pairs[0], k);
    if pairs.len() == 1 {
        assert(pairs.drop_last() =~= Seq::<Seq<char>>::empty());
        assert(pairs.drop_first() =~= Seq::<Seq<char>>::empty());
        assert(pairs.last() == pairs[0]);
    } else {
        let df = pairs.drop_first();
        assert(pairs_fit(df, k)) by {
            assert forall|i: int| 0 <= i < df.len() implies #[trigger] pair_fits(df[i], k) by {
                assert(df[i] == pairs[i + 1]);
            }
        }
        lemma_argument_in_back(df, k);
        assert(df.drop_last() =~= pairs.drop_last().drop_first());
        assert(df.last() == pairs.last());
        assert(pairs.drop_last()[0] == pairs[0]);
    }
}

/// Looking up `k` after adding an entry: an earlier entry for `k` wins.
proof fn lemma_entry_value_push(e: Seq<(Seq<char>, Seq<char>)>, x: (Seq<char>, Seq<char>), k: Seq<char>)
    ensures
        entry_value(e.push(x), k) == match entry_value(e, k) {
            Some(v) => Some(v),
            None => if x.0 == k {
                Some(x.1)
            } else {
                None
            },
        },
    decreases e.len(),
{
    if e.len() > 0 {
        lemma_entry_value_push(e.drop_first(), x, k);
        assert(e.push(x).drop_first() =~= e.drop_first().push(x));
        assert(e.push(x)[0] == e[0]);
    } else {
        assert(e.push(x).drop_first() =~= Seq::<(Seq<char>, Seq<char>)>::empty());
        assert(e.push(x)[0] == x);
        assert(entry_value(e.push(x).drop_first(), k) is None);
    }
}

/// Entries have an entry for `k` exactly when a lookup of `k` finds a value.
proof fn lemma_has_key_value(e: Seq<(Seq<char>, Seq<char>)>, k: Seq<char>)
    ensures
        has_key(e, k) <==> entry_value(e, k) is Some,
    decreases e.len(),
{
    if e.len() > 0 {
        lemma_has_key_value(e.drop_first(), k);
        if has_key(e, k) && e[0].0 != k {
            let i = choose|i: int| 0 <= i < e.len() && #[trigger] e[i].0 == k;
            assert(e.drop_first()[i - 1].0 == k);
        }
        if has_key(e.drop_first(), k) {
            let i = choose|i: int| 0 <= i < e.drop_first().len() && #[trigger] e.drop_first()[i].0 == k;
            assert(e[i + 1].0 == k);
        }
        if e[0].0 == k {
            assert(e[0].0 == k);
        }
    }
}

/// When every pair is of use to a lookup of `k`, all the arguments of a list of
/// pairs agree with the single lookup of `k`: the entry of `k` holds the value
/// that the lookup finds, and without an entry the lookup finds nothing.
pub proof fn lemma_entries_agree_with_lookup(pairs: Seq<Seq<char>>, k: Seq<char>)
    requires
        pairs_fit(pairs, k),
    ensures
        argument_in(pairs, k) == entry_value(entries_in(pairs), k),
    decreases pairs.len(),
{
    if pairs.len() > 0 {
        let init = pairs.drop_last();
        assert(pairs_fit(init, k)) by {
            assert forall|i: int| 0 <= i < init.len() implies #[trigger] pair_fits(init[i], k) by {
                assert(init[i] == pairs[i]);
            }
        }
        assert(pair_fits(pairs[pairs.len() - 1], k));
        lemma_entries_agree_with_lookup(init, k);
        lemma_argument_in_back(pairs, k);
        let e = entries_in(init);
        lemma_has_key_value(e, k);
        match pair_entry(pairs.last()) {
            Some((k2, v2)) => {
                if has_key(e, k2) {
                    lemma_has_key_value(e, k2);
                    if entry_value(e, k) is None && k2 == k {
                        assert(false);
                    }
                } else {
                    lemma_entry_value_push(e, (k2, v2), k);
                }
            },
            None => {},
        }
    }
}

/// The decoded key of a pair that gives an entry.
pub open spec fn pair_key(p: Seq<char>) -> Option<Seq<char>> {
    match pair_entry(p) {
        Some((k, _)) => Some(k),
        None => None,
    }
}

/// Some pair of the list gives an entry with key `k`.
pub open spec fn some_pair_has_key(pairs: Seq<Seq<char>>, k: Seq<char>) -> bool {
    exists|i: int|
        0 <= i < pairs.len() && #[trigger] pair_key(pairs[i]) == Some(k)
}

/// The keys of all the arguments of a list of pairs are the keys of the
/// entries that its pairs give.
proof fn lemma_entry_keys(pairs: Seq<Seq<char>>, k: Seq<char>)
    ensures
        has_key(entries_in(pairs), k) <==> some_pair_has_key(pairs, k),
    decreases pairs.len(),
{
    if pairs.len() > 0 {
        let init = pairs.drop_last();
        let e = entries_in(init);
        let n = pairs.len() - 1;
        lemma_entry_keys(init, k);
        if some_pair_has_key(init, k) {
            let i = choose|i: int|
                0 <= i < init.len() && #[trigger] pair_key(init[i]) == Some(k);
            assert(init[i] == pairs[i]);
            assert(pair_key(pairs[i]) == Some(k));
        }
        if some_pair_has_key(pairs, k) && !some_pair_has_key(init, k) {
            let i = choose|i: int|
                0 <= i < pairs.len() && #[trigger] pair_key(pairs[i]) == Some(k);
            if i < n {
                assert(pairs[i] == init[i]);
                assert(pair_key(init[i]) == Some(k));
            }
            assert(i == n);
        }
        assert(pairs.last() == pairs[n]);
        match pair_entry(pairs.last()) {
            Some((k2, v2)) => {
                if !has_key(e, k2) {
                    let f = e.push((k2, v2));
                    assert(f[e.len() as int].0 == k2);
                    if has_key(e, k) {
                        let j = choose|j: int| 0 <= j < e.len() && #[trigger] e[j].0 == k;
                        assert(f[j].0 == k);
                    }
                    if has_key(f, k) && k != k2 {
                        let j = choose|j: int| 0 <= j < f.len() && #[trigger] f[j].0 == k;
                        assert(e[j].0 == k);
                    }
                }
                if k2 == k {
                    assert(pair_key(pairs[n]) == Some(k));
                }
            },
            None => {},
        }
    }
}

/// The arguments of a query agree with single lookups of a name other than the
/// empty text, when the key and value of every non-empty pair of the query
/// decode (and for the empty name too, when no pair is empty): the entry of
/// `name` holds the value that a lookup finds, and without an entry a lookup
/// finds nothing. The keys of all the arguments are the decoded keys of the
/// query's non-empty pairs.
pub proof fn lemma_query_entries_agree(query: Option<Seq<char>>, name: Seq<char>)
    requires
        query matches Some(q) ==> pairs_decode(split_on(q, '&')),
        query matches Some(q) ==> name.len() > 0 || forall|i: int|
            0 <= i < split_on(q, '&').len() ==> (#[trigger] split_on(q, '&')[i]).len() > 0,
    ensures
        query_argument(query, name) == entry_value(query_entries(query), name),
        has_key(query_entries(query), name) <==> match query {
            Some(q) => exists|i: int|
                0 <= i < split_on(q, '&').len() && (#[trigger] split_on(q, '&')[i]).len() > 0
                    && pair_key(split_on(q, '&')[i]) == Some(name),
            None => false,
        },
{
    match query {
        Some(q) => {
            let pairs = split_on(q, '&');
            assert(pairs_fit(pairs, name)) by {
                assert forall|i: int| 0 <= i < pairs.len() implies #[trigger] pair_fits(pairs[i], name) by {
                    assert(pairs[i].len() == 0 || pair_entry(pairs[i]) is Some);
                }
            }
            lemma_entries_agree_with_lookup(pairs, name);
            lemma_entry_keys(pairs, name);
            if some_pair_has_key(pairs, name) {
                let i = choose|i: int|
                    0 <= i < pairs.len() && #[trigger] pair_key(pairs[i]) == Some(name);
                if pairs[i].len() == 0 {
                    assert(key_value(pairs[i]) is None);
                }
                assert(pairs[i].len() > 0 && pair_key(pairs[i]) == Some(name));
            }
            if exists|i: int|
                0 <= i < pairs.len() && (#[trigger] pairs[i]).len() > 0 && pair_key(pairs[i]) == Some(
                    name,
                ) {
                let i = choose|i: int|
                    0 <= i < pairs.len() && (#[trigger] pairs[i]).len() > 0 && pair_key(pairs[i])
                        == Some(name);
                assert(pair_key(pairs[i]) == Some(name));
            }
        },
        None => {},
    }
}

/// A single-value lookup gives exactly the first of all the values of a
/// parameter (nothing when it has none), when every pair whose key decodes to
/// the name has a value that decodes.
pub proof fn lemma_argument_first_of_values(pairs: Seq<Seq<char>>, name: Seq<char>)
    requires
        forall|i: int|
            0 <= i < pairs.len() ==> #[trigger] pair_settles(pairs[i], name) != Some(
                None::<Seq<char>>,
            ),
    ensures
        argument_in(pairs, name) == if values_in(pairs, name).len() > 0 {
            Some(values_in(pairs, name)[0])
        } else {
            None
        },
    decreases pairs.len(),
{
    if pairs.len() > 0 {
        let rest = pairs.drop_first();
        assert forall|i: int| 0 <= i < rest.len() implies #[trigger] pair_settles(rest[i], name)
            != Some(None::<Seq<char>>) by {
            assert(rest[i] == pairs[i + 1]);
        }
        assert(pair_settles(pairs[0], name) != Some(None::<Seq<char>>));
        lemma_argument_first_of_values(rest, name);
        lemma_values_in_front(pairs, name);
    } else {
        assert(values_in(pairs, name) =~= Seq::<Seq<char>>::empty());
    }
}

/// For a query, a single-value lookup gives exactly the first of all the values
/// of a parameter, when every pair whose key decodes to the name has a value
/// that decodes.
pub proof fn lemma_query_argument_first_of_values(query: Option<Seq<char>>, name: Seq<char>)
    requires
        query matches Some(q) ==> forall|i: int|
            0 <= i < split_on(q, '&').len() ==> #[trigger] pair_settles(split_on(q, '&')[i], name)
                != Some(None::<Seq<char>>),
    ensures
        query_argument(query, name) == if query_arguments(query, name).len() > 0 {
            Some(query_arguments(query, name)[0])
        } else {
            None
        },
{
    match query {
        Some(q) => lemma_argument_first_of_values(split_on(q, '&'), name),
        None => {},
    }
}

} // verus!
