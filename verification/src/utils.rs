//! Route paths derived from type names, and URL percent-decoding.

use crate::text::{chars_of, find_char, first_index, string_from_chars, sub_chars};
use vstd::prelude::*;
use vstd::utf8::{decode_utf8, encode_utf8, valid_utf8};

verus! {

/// The value of an ASCII hexadecimal digit.
pub open spec fn hex_value(b: u8) -> Option<u8> {
    if 48 <= b <= 57 {
        Some((b - 48) as u8)
    } else if 97 <= b <= 102 {
        Some((b - 87) as u8)
    } else if 65 <= b <= 70 {
        Some((b - 55) as u8)
    } else {
        None
    }
}

/// Percent-decoding of bytes: every `%` followed by two hexadecimal digits
/// becomes the byte they spell; every other byte stays as it is.
pub open spec fn percent_decoded(b: Seq<u8>) -> Seq<u8>
    decreases b.len(),
{
    if b.len() == 0 {
        Seq::empty()
    } else if b[0] == 37 && b.len() >= 3 && hex_value(b[1]) is Some && hex_value(b[2]) is Some {
        seq![(hex_value(b[1])->0 * 16 + hex_value(b[2])->0) as u8] + percent_decoded(b.skip(3))
    } else {
        seq![b[0]] + percent_decoded(b.skip(1))
    }
}

/// `s` with every `+` written as `%20`.
pub open spec fn plus_as_space(s: Seq<char>) -> Seq<char>
    decreases s.len(),
{
    if s.len() == 0 {
        Seq::empty()
    } else {
        plus_as_space(s.drop_last()) + if s.last() == '+' {
            seq!['%', '2', '0']
        } else {
            seq![s.last()]
        }
    }
}

/// The text that URL-decoding `s` gives: `+` stands for a space, `%XX` for the
/// byte `XX`, and the bytes must form UTF-8.
pub open spec fn url_decoded(s: Seq<char>) -> Option<Seq<char>> {
    let b = percent_decoded(encode_utf8(plus_as_space(s)));
    if valid_utf8(b) {
        Some(decode_utf8(b))
    } else {
        None
    }
}

/// Percent-decodes `input` with the `percent-encoding` crate and reads the bytes
/// as UTF-8.
///
/// Calls `percent_decode_str(input).decode_utf8()`. The contract claims that the
/// decoding turns each `%` followed by two hexadecimal digits into one byte and
/// keeps every other byte, and that the result is `Ok` exactly when the decoded
/// bytes are valid UTF-8, holding the text they encode. What the error message
/// says is left unstated.
#[verifier::external_body]
fn percent_decode_utf8(input: &str) -> (r: Result<String, String>)
    ensures
        match r {
            Ok(s) => valid_utf8(percent_decoded(encode_utf8(input@))) && s@ == decode_utf8(
                percent_decoded(encode_utf8(input@)),
            ),
            Err(_) => !valid_utf8(percent_decoded(encode_utf8(input@))),
        },
{
    percent_encoding::percent_decode_str(input).decode_utf8().map(|c| c.into_owned()).map_err(
        |e| e.to_string(),
    )
}

/// URL-decodes a percent-encoded string.
///
/// Converts `%XX` sequences to their bytes and `+` to a space; the bytes must
/// form UTF-8, else the result is an error.
pub fn url_decode(encoded: &str) -> (r: Result<String, String>)
    ensures
        match r {
            Ok(s) => url_decoded(encoded@) == Some(s@),
            Err(_) => url_decoded(encoded@) is None,
        },
{
    let chars = chars_of(encoded);
    let mut replaced: Vec<char> = Vec::new();
    let mut i: usize = 0;
    while i < chars.len()
        invariant
            i <= chars@.len(),
            chars@ == encoded@,
            replaced@ == plus_as_space(chars@.take(i as int)),
        decreases chars@.len() - i,
    {
        proof {
            assert(chars@.take(i + 1).drop_last() =~= chars@.take(i as int));
        }
        if chars[i] == '+' {
            replaced.push('%');
            replaced.push('2');
            replaced.push('0');
        } else {
            replaced.push(chars[i]);
        }
        i = i + 1;
        proof {
            assert(replaced@ =~= plus_as_space(chars@.take(i as int)));
        }
    }
    proof {
        assert(chars@.take(i as int) =~= encoded@);
    }
    let text = string_from_chars(replaced.as_slice());
    percent_decode_utf8(text.as_str())
}

/// Whether `::` starts at position `i` of `s`.
pub open spec fn colons_at(s: Seq<char>, i: int) -> bool {
    0 <= i && i + 1 < s.len() && s[i] == ':' && s[i + 1] == ':'
}

/// The position of the first `::` in `s`, if any.
pub open spec fn first_double_colon(s: Seq<char>) -> Option<int> {
    if exists|i: int| #[trigger] colons_at(s, i) {
        Some(choose|i: int| #[trigger] colons_at(s, i) && forall|j: int| 0 <= j < i ==> !colons_at(s, j))
    } else {
        None
    }
}

/// `s` after its first `::` (the crate's name and the `::` dropped), or all
/// of `s` when it has none.
pub open spec fn after_crate(s: Seq<char>) -> Seq<char> {
    match first_double_colon(s) {
        Some(i) => s.skip(i + 2),
        None => s,
    }
}

/// `s` with every `::` written as `/` and every `_` as `/`, read from the left.
#[verifier::opaque]
pub open spec fn path_chars(s: Seq<char>) -> Seq<char>
    decreases s.len(),
{
    if s.len() == 0 {
        Seq::empty()
    } else if colons_at(s, 0) {
        seq!['/'] + path_chars(s.skip(2))
    } else {
        seq![
            if s[0] == '_' {
                '/'
            } else {
                s[0]
            },
        ] + path_chars(s.skip(1))
    }
}

/// The route path of a type name: generic parameters dropped (from the first
/// `<` on), the crate's name dropped, `::` and `_` written as `/`, and `/` in
/// front.
pub open spec fn type_path(name: Seq<char>) -> Seq<char> {
    let base = match first_index(name, '<') {
        Some(i) => name.take(i),
        None => name,
    };
    seq!['/'] + path_chars(after_crate(base))
}

/// Finds the first `::` in `s`.
fn find_double_colon(s: &[char]) -> (r: Option<usize>)
    ensures
        r matches Some(k) ==> first_double_colon(s@) == Some(k as int) && colons_at(s@, k as int),
        r is None ==> first_double_colon(s@) is None,
{
    let mut i: usize = 0;
    while i < s.len() && i + 1 < s.len()
        invariant
            i <= s@.len(),
            forall|j: int| 0 <= j < i ==> !#[trigger] colons_at(s@, j),
        decreases s@.len() - i,
    {
        if s[i] == ':' && s[i + 1] == ':' {
            proof {
                assert(colons_at(s@, i as int));
                let k = choose|k: int| #[trigger]
                    colons_at(s@, k) && forall|j: int| 0 <= j < k ==> !colons_at(s@, j);
                if k < i {
                } else if k > i {
                    assert(!colons_at(s@, i as int));
                }
            }
            return Some(i);
        }
        i = i + 1;
    }
    proof {
        assert forall|j: int| !#[trigger] colons_at(s@, j) by {
            if 0 <= j < i {
            }
        }
    }
    None
}

/// `s` with every `::` and every `_` written as `/`.
fn path_chars_of(s: &[char]) -> (r: Vec<char>)
    ensures
        r@ == path_chars(s@),
{
    let mut out: Vec<char> = Vec::new();
    let mut i: usize = 0;
    assert(s@.skip(0) =~= s@);
    reveal(path_chars);
    while i < s.len()
        invariant
            i <= s@.len(),
            path_chars(s@) == out@ + path_chars(s@.skip(i as int)),
        decreases s@.len() - i,
    {
        let ghost t = s@.skip(i as int);
        if i + 1 < s.len() && s[i] == ':' && s[i + 1] == ':' {
            proof {
                reveal(path_chars);
                assert(colons_at(t, 0));
                assert(t.skip(2) =~= s@.skip(i + 2));
                assert(out@ + (seq!['/'] + path_chars(t.skip(2))) =~= out@.push('/') + path_chars(
                    s@.skip(i + 2),
                ));
            }
            out.push('/');
            i = i + 2;
        } else {
            let c = if s[i] == '_' {
                '/'
            } else {
                s[i]
            };
            proof {
                reveal(path_chars);
                assert(!colons_at(t, 0));
                assert(t[0] == s@[i as int]);
                assert(t.skip(1) =~= s@.skip(i + 1));
                assert(out@ + (seq![c] + path_chars(t.skip(1))) =~= out@.push(c) + path_chars(
                    s@.skip(i + 1),
                ));
            }
            out.push(c);
            i = i + 1;
        }
    }
    proof {
        reveal(path_chars);
        assert(s@.skip(i as int) =~= Seq::<char>::empty());
        assert(out@ + Seq::<char>::empty() =~= out@);
    }
    out
}

/// `s` after its first `::`, or all of `s`.
fn drop_crate(base: Vec<char>) -> (r: Vec<char>)
    ensures
        r@ == after_crate(base@),
{
    match find_double_colon(base.as_slice()) {
        Some(i) => {
            let r = sub_chars(base.as_slice(), i + 2, base.len());
            assert(r@ =~= base@.skip(i + 2));
            r
        },
        None => base,
    }
}

/// Generates a URL path from the name of a type (as the compiler spells it).
///
/// Converts the type name to a URL path by removing generic parameters (from
/// the first `<` on) and the crate's name in front, replacing `::` and `_` with
/// `/`, and prepending `/`: `my_crate::MyHandler` gives `/MyHandler`,
/// `my_crate::api::User` gives `/api/User`, and `my_crate::api_add` gives
/// `/api/add`.
pub fn get_path(name: &str) -> (r: String)
    ensures
        r@ == type_path(name@),
{
    let chars = chars_of(name);
    let base = match find_char(chars.as_slice(), '<') {
        Some(i) => {
            let b = sub_chars(chars.as_slice(), 0, i);
            assert(b@ =~= name@.take(i as int));
            b
        },
        None => chars,
    };
    assert(base@ == match first_index(name@, '<') {
        Some(i) => name@.take(i),
        None => name@,
    });
    let rest = drop_crate(base);
    assert(rest@ == after_crate(base@));
    let mut out: Vec<char> = vec!['/'];
    let mut tail = path_chars_of(rest.as_slice());
    let ghost tail_v = tail@;
    out.append(&mut tail);
    assert(out@ =~= seq!['/'] + tail_v);
    string_from_chars(out.as_slice())
}

} // verus!
