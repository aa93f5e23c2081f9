//! Query parameters set by a request handler before the request goes out.

use crate::query::{
    argument_in, entries_in, entry_value, has_key, key_value, lemma_entries_agree_with_lookup,
    pair_entry, pair_fits, pairs_fit, query_argument, query_entries,
};
use crate::text::{chars_eq, chars_of, first_index, lemma_split_on_append, split_on};
use crate::uri::{lemma_decode_encoded, lemma_percent_encoded_plain, pairs_view, param_text, params_text, percent_encoded};
use crate::utils::url_decoded;
use vstd::prelude::*;
use vstd::utf8::encode_utf8;

verus! {

/// Each name occurs once.
pub open spec fn names_unique(ps: Seq<(Seq<char>, Seq<char>)>) -> bool {
    forall|i: int, j: int| 0 <= i < j < ps.len() ==> #[trigger] ps[i].0 != #[trigger] ps[j].0
}

/// The position of parameter `name`, if it is set.
pub open spec fn param_index(ps: Seq<(Seq<char>, Seq<char>)>, name: Seq<char>) -> Option<int> {
    if exists|i: int| 0 <= i < ps.len() && #[trigger] ps[i].0 == name {
        Some(choose|i: int| 0 <= i < ps.len() && #[trigger] ps[i].0 == name)
    } else {
        None
    }
}

/// The parameters after setting `name` to `value`: an existing parameter keeps
/// its place, a new one comes last.
pub open spec fn set_param(ps: Seq<(Seq<char>, Seq<char>)>, name: Seq<char>, value: Seq<char>) -> Seq<
    (Seq<char>, Seq<char>),
> {
    match param_index(ps, name) {
        Some(i) => ps.update(i, (name, value)),
        None => ps.push((name, value)),
    }
}

/// Sets a query parameter (overwriting its value), reporting whether the
/// parameters changed: when `name` already has `value`, nothing changes.
pub fn set_argument_in(params: &mut Vec<(String, String)>, name: &str, value: &str) -> (r: bool)
    requires
        names_unique(pairs_view(old(params)@)),
    ensures
        names_unique(pairs_view(final(params)@)),
        match param_index(pairs_view(old(params)@), name@) {
            Some(i) => if pairs_view(old(params)@)[i].1 == value@ {
                !r && final(params)@ == old(params)@
            } else {
                r && pairs_view(final(params)@) == set_param(pairs_view(old(params)@), name@, value@)
            },
            None => r && pairs_view(final(params)@) == set_param(
                pairs_view(old(params)@),
                name@,
                value@,
            ),
        },
{
    let ghost pv = pairs_view(params@);
    let n = chars_of(name);
    let v = chars_of(value);
    let mut i: usize = 0;
    while i < params.len()
        invariant
            i <= params@.len(),
            params@ == old(params)@,
            pv == pairs_view(params@),
            names_unique(pv),
            n@ == name@,
            v@ == value@,
            forall|j: int| 0 <= j < i ==> #[trigger] pv[j].0 != name@,
        decreases params@.len() - i,
    {
        let key = chars_of(params[i].0.as_str());
        if chars_eq(key.as_slice(), n.as_slice()) {
            proof {
                assert(pv[i as int].0 == name@);
                let k = choose|k: int| 0 <= k < pv.len() && #[trigger] pv[k].0 == name@;
                if k != i as int {
                    assert(pv[k].0 == pv[i as int].0);
                }
            }
            let current = chars_of(params[i].1.as_str());
            if chars_eq(current.as_slice(), v.as_slice()) {
                proof {
                    assert(pv[i as int].1 == value@);
                }
                return false;
            }
            params.set(i, (name.to_owned(), value.to_owned()));
            proof {
                assert(pairs_view(params@) =~= set_param(pv, name@, value@));
                assert forall|a: int, b: int| 0 <= a < b < pairs_view(params@).len() implies
                    #[trigger] pairs_view(params@)[a].0 != #[trigger] pairs_view(params@)[b].0 by {
                    assert(pv[a].0 != pv[b].0);
                }
            }
            return true;
        }
        i = i + 1;
    }
    params.push((name.to_owned(), value.to_owned()));
    proof {
        assert(pairs_view(params@) =~= set_param(pv, name@, value@));
        assert forall|a: int, b: int| 0 <= a < b < pairs_view(params@).len() implies
            #[trigger] pairs_view(params@)[a].0 != #[trigger] pairs_view(params@)[b].0 by {
            if b == pv.len() {
                assert(pv[a].0 != name@);
            } else {
                assert(pv[a].0 != pv[b].0);
            }
        }
    }
    true
}

/// Query parameters with distinct names, in the order they were first set.
#[derive(Debug)]
pub struct QueryParams {
    params: Vec<(String, String)>,
}

impl QueryParams {
    /// No name occurs twice.
    #[verifier::type_invariant]
    spec fn names_distinct(self) -> bool {
        names_unique(pairs_view(self.params@))
    }

    /// The parameters as text pairs.
    pub closed spec fn spec_params(&self) -> Seq<(Seq<char>, Seq<char>)> {
        pairs_view(self.params@)
    }

    /// No parameter.
    pub fn new() -> (r: Self)
        ensures
            r.spec_params() == Seq::<(Seq<char>, Seq<char>)>::empty(),
    {
        let r = QueryParams { params: Vec::new() };
        assert(r.spec_params() =~= Seq::<(Seq<char>, Seq<char>)>::empty());
        r
    }

    /// Sets parameter `name` to `value` (a new name comes last, an existing one
    /// keeps its place), reporting whether the parameters changed: when `name`
    /// already has `value`, nothing changes.
    pub fn set_argument(&mut self, name: &str, value: &str) -> (r: bool)
        ensures
            names_unique(final(self).spec_params()),
            match param_index(old(self).spec_params(), name@) {
                Some(i) => if old(self).spec_params()[i].1 == value@ {
                    !r && final(self).spec_params() == old(self).spec_params()
                } else {
                    r && final(self).spec_params() == set_param(old(self).spec_params(), name@, value@)
                },
                None => r && final(self).spec_params() == set_param(
                    old(self).spec_params(),
                    name@,
                    value@,
                ),
            },
    {
        proof {
            use_type_invariant(&*self);
        }
        let mut ps: Vec<(String, String)> = Vec::new();
        proof {
            assert(pairs_view(ps@) =~= Seq::<(Seq<char>, Seq<char>)>::empty());
        }
        std::mem::swap(&mut ps, &mut self.params);
        let r = set_argument_in(&mut ps, name, value);
        self.params = ps;
        r
    }

    /// The parameters, in order.
    pub fn pairs(&self) -> (r: &Vec<(String, String)>)
        ensures
            pairs_view(r@) == self.spec_params(),
            names_unique(pairs_view(r@)),
    {
        proof {
            use_type_invariant(self);
        }
        &self.params
    }
}

/// Setting a parameter to the value it has changes nothing: a second identical
/// setting reports no change.
pub proof fn lemma_set_param_twice(ps: Seq<(Seq<char>, Seq<char>)>, name: Seq<char>, value: Seq<char>)
    requires
        names_unique(ps),
    ensures
        param_index(set_param(ps, name, value), name) matches Some(i) && set_param(ps, name, value)[i].1
            == value,
{
    let qs = set_param(ps, name, value);
    match param_index(ps, name) {
        Some(i) => {
            assert(qs[i].0 == name);
            let k = choose|k: int| 0 <= k < qs.len() && #[trigger] qs[k].0 == name;
            if k != i {
                assert(ps[k].0 == qs[k].0);
                assert(ps[i].0 == name);
            }
        },
        None => {
            assert(qs[ps.len() as int].0 == name);
            let k = choose|k: int| 0 <= k < qs.len() && #[trigger] qs[k].0 == name;
            if k < ps.len() {
                assert(ps[k].0 == name);
            }
        },
    }
}

/// The text of a parameter holds no `&`, and its first `=` follows the name.
proof fn lemma_param_text_shape(p: (Seq<char>, Seq<char>))
    ensures
        forall|i: int| 0 <= i < param_text(p).len() ==> #[trigger] param_text(p)[i] != '&',
        key_value(param_text(p)) == Some(
            (percent_encoded(encode_utf8(p.0)), percent_encoded(encode_utf8(p.1))),
        ),
{
    let k = percent_encoded(encode_utf8(p.0));
    let v = percent_encoded(encode_utf8(p.1));
    let t = param_text(p);
    lemma_percent_encoded_plain(encode_utf8(p.0));
    lemma_percent_encoded_plain(encode_utf8(p.1));
    assert(t == k + seq!['='] + v);
    assert forall|i: int| 0 <= i < t.len() implies #[trigger] t[i] != '&' by {
        if i < k.len() {
            assert(t[i] == k[i]);
        } else if i > k.len() {
            assert(t[i] == v[i - k.len() - 1]);
        }
    }
    assert(t[k.len() as int] == '=');
    let n = k.len() as int;
    assert(forall|j: int| 0 <= j < n ==> t[j] != '=') by {
        assert forall|j: int| 0 <= j < n implies t[j] != '=' by {
            assert(t[j] == k[j]);
        }
    }
    let i = choose|i: int| 0 <= i < t.len() && t[i] == '=' && forall|j: int| 0 <= j < i ==> t[j] != '=';
    assert(first_index(t, '=') == Some(i));
    if i < n {
        assert(t[i] != '=');
    }
    if i > n {
        assert(t[n] != '=');
    }
    assert(t.take(n) =~= k);
    assert(t.skip(n + 1) =~= v);
}

/// A parameter's text gives back the parameter as its entry.
proof fn lemma_param_entry(p: (Seq<char>, Seq<char>))
    ensures
        pair_entry(param_text(p)) == Some(p),
{
    lemma_param_text_shape(p);
    lemma_decode_encoded(p.0);
    lemma_decode_encoded(p.1);
}

/// The texts of the parameters.
pub open spec fn param_texts(ps: Seq<(Seq<char>, Seq<char>)>) -> Seq<Seq<char>> {
    ps.map_values(|p: (Seq<char>, Seq<char>)| param_text(p))
}

/// The query of some parameters splits at `&` into their texts.
proof fn lemma_split_params(ps: Seq<(Seq<char>, Seq<char>)>)
    requires
        ps.len() > 0,
    ensures
        split_on(params_text(ps), '&') == param_texts(ps),
    decreases ps.len(),
{
    let last = param_text(ps.last());
    assert(forall|i: int| 0 <= i < last.len() ==> #[trigger] last[i] != '&') by {
        lemma_param_text_shape(ps.last());
    }
    if ps.len() == 1 {
        assert(params_text(ps) == last) by {
            assert(ps.last() == ps[0]);
        }
        lemma_split_on_append(Seq::empty(), last, '&');
        let e = Seq::<char>::empty();
        assert(e + last =~= last);
        assert(split_on(e, '&') =~= seq![e]);
        assert(split_on(last, '&') =~= seq![last]) by {
            assert(seq![e].update(0, e + last) =~= seq![last]);
        }
        assert(param_texts(ps) =~= seq![last]);
    } else {
        let init = ps.drop_last();
        lemma_split_params(init);
        let x = params_text(init);
        assert(params_text(ps) =~= x.push('&') + last);
        lemma_split_on_append(x.push('&'), last, '&');
        let r = split_on(x.push('&'), '&');
        assert(r == split_on(x, '&').push(Seq::<char>::empty())) by {
            assert(x.push('&').drop_last() =~= x);
            assert(x.push('&').last() == '&');
        }
        assert(r.update(r.len() - 1, r.last() + last) =~= split_on(x, '&').push(last)) by {
            assert(Seq::<char>::empty() + last =~= last);
        }
        assert(param_texts(ps) =~= param_texts(init).push(last));
    }
}

/// Each text of parameters gives an entry, so it is of use to any lookup.
proof fn lemma_param_texts_decode(ps: Seq<(Seq<char>, Seq<char>)>, k: Seq<char>)
    ensures
        pairs_fit(param_texts(ps), k),
{
    assert forall|i: int| 0 <= i < param_texts(ps).len() implies #[trigger] pair_fits(
        param_texts(ps)[i],
        k,
    ) by {
        lemma_param_entry(ps[i]);
    }
}

/// The entries of the texts of parameters with distinct names are the
/// parameters.
proof fn lemma_param_texts_entries(ps: Seq<(Seq<char>, Seq<char>)>)
    requires
        names_unique(ps),
    ensures
        entries_in(param_texts(ps)) == ps,
    decreases ps.len(),
{
    if ps.len() > 0 {
        let init = ps.drop_last();
        assert(names_unique(init)) by {
            assert forall|i: int, j: int| 0 <= i < j < init.len() implies #[trigger] init[i].0
                != #[trigger] init[j].0 by {
                assert(init[i] == ps[i] && init[j] == ps[j]);
            }
        }
        lemma_param_texts_entries(init);
        assert(param_texts(ps).drop_last() =~= param_texts(init));
        lemma_param_entry(ps.last());
        assert(param_texts(ps).last() == param_text(ps.last()));
        if has_key(init, ps.last().0) {
            let i = choose|i: int| 0 <= i < init.len() && #[trigger] init[i].0 == ps.last().0;
            assert(ps[i].0 == ps[ps.len() - 1].0);
        }
        assert(init.push(ps.last()) =~= ps);
    }
}

/// Looking up the name of a parameter among parameters with distinct names
/// finds its value.
proof fn lemma_entry_value_unique(ps: Seq<(Seq<char>, Seq<char>)>, i: int)
    requires
        names_unique(ps),
        0 <= i < ps.len(),
    ensures
        entry_value(ps, ps[i].0) == Some(ps[i].1),
    decreases ps.len(),
{
    if i > 0 {
        let rest = ps.drop_first();
        assert(names_unique(rest)) by {
            assert forall|a: int, b: int| 0 <= a < b < rest.len() implies #[trigger] rest[a].0
                != #[trigger] rest[b].0 by {
                assert(rest[a] == ps[a + 1] && rest[b] == ps[b + 1]);
            }
        }
        assert(ps[0].0 != ps[i].0);
        lemma_entry_value_unique(rest, i - 1);
        assert(rest[i - 1] == ps[i]);
    }
}

/// Query parameters set before a request goes out read back unchanged where
/// the request arrives: in the query built from parameters with distinct
/// names, all the arguments are exactly those parameters, in order, and each
/// name is found with its value.
pub proof fn lemma_params_read_back(ps: Seq<(Seq<char>, Seq<char>)>)
    requires
        ps.len() > 0,
        names_unique(ps),
    ensures
        query_entries(Some(params_text(ps))) == ps,
        forall|i: int|
            0 <= i < ps.len() ==> query_argument(Some(params_text(ps)), #[trigger] ps[i].0) == Some(
                ps[i].1,
            ),
{
    lemma_split_params(ps);
    lemma_param_texts_entries(ps);
    assert forall|i: int| 0 <= i < ps.len() implies query_argument(
        Some(params_text(ps)),
        #[trigger] ps[i].0,
    ) == Some(ps[i].1) by {
        lemma_param_texts_decode(ps, ps[i].0);
        lemma_entries_agree_with_lookup(param_texts(ps), ps[i].0);
        lemma_entry_value_unique(ps, i);
    }
}

} // verus!
