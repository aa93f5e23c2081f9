//! URIs as the parts the library reads, and the URIs it builds: the URI of a
//! route below a base URL, and a URI with query parameters appended.

use crate::text::{chars_of, first_index, string_from_chars};
use crate::params::{lemma_params_read_back, names_unique};
use crate::query::{query_argument, query_entries};
use vstd::prelude::*;
use crate::utils::{hex_value, percent_decoded, plus_as_space, url_decoded};
use vstd::utf8::{encode_scalar, encode_utf8, leading_byte_width_1};

verus! {

/// The parts of a URI that the library reads: scheme, authority, host, port,
/// path and query, as `hyper::Uri` reports them for the text.
pub type UriView = (
    Option<Seq<char>>,
    Option<Seq<char>>,
    Option<Seq<char>>,
    Option<u16>,
    Seq<char>,
    Option<Seq<char>>,
);

/// What parsing `text` as a URI gives: its parts, or nothing when `text` is not
/// a valid URI. Named for `hyper::Uri`'s parser, whose grammar is not restated.
pub uninterp spec fn parsed_uri(text: Seq<char>) -> Option<UriView>;

/// `s` holds no `c`.
pub open spec fn lacks(s: Seq<char>, c: char) -> bool {
    forall|i: int| 0 <= i < s.len() ==> #[trigger] s[i] != c
}

/// The text after the first `?` of `t`, if it has one.
pub open spec fn query_after_mark(t: Seq<char>) -> Option<Seq<char>> {
    match first_index(t, '?') {
        Some(i) => Some(t.skip(i + 1)),
        None => None,
    }
}

/// What the parser shows of the parts of every URI it accepts: the scheme, the
/// authority and the path hold no `?` and no `#` (the authority ends at either,
/// the path at the query, and the fragment is dropped), and, for a text without
/// `#`, the query is the text after its first `?` (none without `?`).
pub open spec fn parse_facts(text: Seq<char>, p: UriView) -> bool {
    &&& lacks(or_empty(p.0), '?') && lacks(or_empty(p.0), '#')
    &&& lacks(or_empty(p.1), '?') && lacks(or_empty(p.1), '#')
    &&& lacks(p.4, '?') && lacks(p.4, '#')
    &&& lacks(text, '#') ==> p.5 == query_after_mark(text)
}

/// A parsed URI, with the text it was parsed from.
#[derive(Debug, Clone)]
pub struct UriParts {
    text: String,
    scheme: Option<String>,
    authority: Option<String>,
    host: Option<String>,
    port: Option<u16>,
    path: String,
    query: Option<String>,
}

/// The text of an optional string.
pub open spec fn opt_text(s: Option<String>) -> Option<Seq<char>> {
    match s {
        Some(t) => Some(t@),
        None => None,
    }
}

impl UriParts {
    /// The text the URI was parsed from.
    pub closed spec fn text(&self) -> Seq<char> {
        self.text@
    }

    /// The parts of the URI.
    pub closed spec fn parts(&self) -> UriView {
        (
            opt_text(self.scheme),
            opt_text(self.authority),
            opt_text(self.host),
            self.port,
            self.path@,
            opt_text(self.query),
        )
    }

    /// The parts are those that parsing the text gives (with what the parser
    /// shows of them).
    pub open spec fn wf(&self) -> bool {
        parsed_uri(self.text()) == Some(self.parts()) && parse_facts(self.text(), self.parts())
    }

    /// The text the URI was parsed from.
    pub fn as_str(&self) -> (r: &str)
        ensures
            r@ == self.text(),
    {
        self.text.as_str()
    }

    /// The scheme, such as `http`.
    pub fn scheme_str(&self) -> (r: Option<&str>)
        ensures
            match r {
                Some(s) => self.parts().0 == Some(s@),
                None => self.parts().0 is None,
            },
    {
        match &self.scheme {
            Some(s) => Some(s.as_str()),
            None => None,
        }
    }

    /// The authority: host and port, with user information if any.
    pub fn authority_str(&self) -> (r: Option<&str>)
        ensures
            match r {
                Some(s) => self.parts().1 == Some(s@),
                None => self.parts().1 is None,
            },
    {
        match &self.authority {
            Some(s) => Some(s.as_str()),
            None => None,
        }
    }

    /// The host.
    pub fn host(&self) -> (r: Option<&str>)
        ensures
            match r {
                Some(s) => self.parts().2 == Some(s@),
                None => self.parts().2 is None,
            },
    {
        match &self.host {
            Some(s) => Some(s.as_str()),
            None => None,
        }
    }

    /// The port, if one is written.
    pub fn port_u16(&self) -> (r: Option<u16>)
        ensures
            r == self.parts().3,
    {
        self.port
    }

    /// The path.
    pub fn path(&self) -> (r: &str)
        ensures
            r@ == self.parts().4,
    {
        self.path.as_str()
    }

    /// The query, without the `?`.
    pub fn query(&self) -> (r: Option<&str>)
        ensures
            match r {
                Some(s) => self.parts().5 == Some(s@),
                None => self.parts().5 is None,
            },
    {
        match &self.query {
            Some(s) => Some(s.as_str()),
            None => None,
        }
    }
}

/// Parses `text` as a URI.
///
/// Calls `text.parse::<hyper::Uri>()` and reads the parts of the result. The
/// contract claims that the result is `Ok` exactly when `parsed_uri(text)` has
/// parts, holding those parts and `text` itself; `parsed_uri` names the parser's
/// outcome without restating the URI grammar. It also claims the facts of
/// `parse_facts`, which `http`'s `parse_full`, `Authority::parse` and
/// `scan_path_and_query` show: scheme bytes are `SCHEME_CHARS`, the authority
/// ends at `/`, `?` or `#`, the query starts at the first `?` and the fragment
/// is cut off. The error message is left unstated.
#[verifier::external_body]
pub(crate) fn parse_uri(text: &str) -> (r: Result<UriParts, String>)
    ensures
        match r {
            Ok(u) => u.text() == text@ && u.wf(),
            Err(_) => parsed_uri(text@) is None,
        },
{
    let uri: hyper::Uri = text.parse().map_err(|e: hyper::http::uri::InvalidUri| e.to_string())?;
    Ok(UriParts {
        text: text.to_string(),
        scheme: uri.scheme_str().map(String::from),
        authority: uri.authority().map(|a| a.as_str().to_string()),
        host: uri.host().map(String::from),
        port: uri.port_u16(),
        path: uri.path().to_string(),
        query: uri.query().map(String::from),
    })
}

/// The decimal digits of `n`.
pub open spec fn decimal(n: nat) -> Seq<char>
    decreases n,
{
    if n < 10 {
        seq![digit_char(n)]
    } else {
        decimal(n / 10).push(digit_char(n % 10))
    }
}

/// The char of a decimal digit.
pub open spec fn digit_char(d: nat) -> char {
    if d == 0 {
        '0'
    } else if d == 1 {
        '1'
    } else if d == 2 {
        '2'
    } else if d == 3 {
        '3'
    } else if d == 4 {
        '4'
    } else if d == 5 {
        '5'
    } else if d == 6 {
        '6'
    } else if d == 7 {
        '7'
    } else if d == 8 {
        '8'
    } else {
        '9'
    }
}

fn digit(d: u16) -> (r: char)
    requires
        d < 10,
    ensures
        r == digit_char(d as nat),
{
    if d == 0 {
        '0'
    } else if d == 1 {
        '1'
    } else if d == 2 {
        '2'
    } else if d == 3 {
        '3'
    } else if d == 4 {
        '4'
    } else if d == 5 {
        '5'
    } else if d == 6 {
        '6'
    } else if d == 7 {
        '7'
    } else if d == 8 {
        '8'
    } else {
        '9'
    }
}

/// Writes `n` in decimal.
fn decimal_chars(n: u16) -> (r: Vec<char>)
    ensures
        r@ == decimal(n as nat),
    decreases n,
{
    if n < 10 {
        vec![digit(n)]
    } else {
        let mut v = decimal_chars(n / 10);
        v.push(digit(n % 10));
        v
    }
}

/// `s` without its trailing `/` chars.
pub open spec fn trim_trailing_slashes(s: Seq<char>) -> Seq<char>
    decreases s.len(),
{
    if s.len() > 0 && s.last() == '/' {
        trim_trailing_slashes(s.drop_last())
    } else {
        s
    }
}

/// An optional text, or the empty text.
pub open spec fn or_empty(s: Option<Seq<char>>) -> Seq<char> {
    match s {
        Some(t) => t,
        None => Seq::empty(),
    }
}

/// Whether a base URL scheme asks for TLS.
pub open spec fn is_tls_scheme(scheme: Option<Seq<char>>) -> bool {
    scheme == Some(seq!['h', 't', 't', 'p', 's']) || scheme == Some(seq!['w', 's', 's'])
}

/// The scheme of the URI of a route: the forced scheme, with an `s` appended
/// when the base URL uses TLS and the forced scheme does not end in `s`; else
/// the scheme of the base URL.
pub open spec fn route_scheme(base: UriView, force_scheme: Option<Seq<char>>) -> Seq<char> {
    match force_scheme {
        Some(f) => if is_tls_scheme(base.0) && !(f.len() > 0 && f.last() == 's') {
            f.push('s')
        } else {
            f
        },
        None => or_empty(base.0),
    }
}

/// The text of the URI of the route `path` below `base`:
/// `scheme://host:port` followed by the base path without trailing slashes
/// (when it has one) and the route path, then the base query. The port
/// defaults to 443 for a TLS base URL and to 80 otherwise.
pub open spec fn route_uri_text(base: UriView, path: Seq<char>, force_scheme: Option<Seq<char>>) -> Seq<char> {
    let port: nat = match base.3 {
        Some(p) => p as nat,
        None => if is_tls_scheme(base.0) {
            443
        } else {
            80
        },
    };
    let prefix = route_scheme(base, force_scheme) + seq![':', '/', '/'] + or_empty(base.2) + seq![':']
        + decimal(port) + base.4;
    let url = if prefix.len() > 0 && prefix.last() == '/' {
        trim_trailing_slashes(prefix) + path
    } else {
        prefix + path
    };
    url + match base.5 {
        Some(q) => seq!['?'] + q,
        None => Seq::empty(),
    }
}

/// Trimming trailing slashes after a text that does not end in `/` keeps that
/// text in front.
proof fn lemma_trim_keeps_front(a: Seq<char>, b: Seq<char>)
    requires
        a.len() > 0,
        a.last() != '/',
    ensures
        trim_trailing_slashes(a + b).len() >= a.len(),
        trim_trailing_slashes(a + b).take(a.len() as int) == a,
    decreases b.len(),
{
    if b.len() == 0 {
        assert(a + b =~= a);
    } else {
        let t = a + b;
        if t.last() == '/' {
            assert(t.drop_last() =~= a + b.drop_last());
            lemma_trim_keeps_front(a, b.drop_last());
        } else {
            assert(t.take(a.len() as int) =~= a);
        }
    }
}

/// A base URL whose scheme is `https` or `wss` is a TLS one: without a port the
/// route's URI uses port 443, a forced scheme `http` becomes `https`, and
/// without a forced scheme the base's scheme stays.
pub proof fn lemma_route_uri_tls(base: UriView, path: Seq<char>, force: Option<Seq<char>>)
    requires
        base.0 == Some(seq!['w', 's', 's']) || base.0 == Some(seq!['h', 't', 't', 'p', 's']),
        base.3 is None,
        force is None || force == Some(seq!['h', 't', 't', 'p']),
    ensures
        ({
            let scheme = match force {
                Some(f) => f.push('s'),
                None => base.0->0,
            };
            let head = scheme + seq![':', '/', '/'] + or_empty(base.2) + seq![':', '4', '4', '3'];
            route_uri_text(base, path, force).len() >= head.len() && route_uri_text(
                base,
                path,
                force,
            ).take(head.len() as int) == head
        }),
{
    let scheme = match force {
        Some(f) => f.push('s'),
        None => base.0->0,
    };
    assert(is_tls_scheme(base.0));
    match force {
        Some(f) => {
            assert(f.last() == 'p');
        },
        None => {},
    }
    assert(route_scheme(base, force) == scheme);
    reveal_with_fuel(decimal, 4);
    assert(decimal(443) =~= seq!['4', '4', '3']);
    let head = scheme + seq![':', '/', '/'] + or_empty(base.2) + seq![':', '4', '4', '3'];
    let prefix = head + base.4;
    assert(route_scheme(base, force) + seq![':', '/', '/'] + or_empty(base.2) + seq![':'] + decimal(
        443,
    ) + base.4 =~= prefix);
    let q = match base.5 {
        Some(q) => seq!['?'] + q,
        None => Seq::<char>::empty(),
    };
    if prefix.len() > 0 && prefix.last() == '/' {
        assert(head.last() == '3');
        lemma_trim_keeps_front(head, base.4);
        let url = trim_trailing_slashes(prefix) + path;
        assert((url + q).take(head.len() as int) =~= trim_trailing_slashes(prefix).take(head.len() as int));
    } else {
        assert((prefix + path + q).take(head.len() as int) =~= head);
    }
}

/// A base URL whose scheme is `http` or `ws` is a plain one: without a port the
/// route's URI uses port 80, and a forced scheme is taken as it is.
pub proof fn lemma_route_uri_plain(base: UriView, path: Seq<char>, force: Option<Seq<char>>)
    requires
        base.0 == Some(seq!['w', 's']) || base.0 == Some(seq!['h', 't', 't', 'p']),
        base.3 is None,
        force matches Some(f) ==> f.len() > 0,
    ensures
        ({
            let scheme = match force {
                Some(f) => f,
                None => base.0->0,
            };
            let head = scheme + seq![':', '/', '/'] + or_empty(base.2) + seq![':', '8', '0'];
            route_uri_text(base, path, force).len() >= head.len() && route_uri_text(
                base,
                path,
                force,
            ).take(head.len() as int) == head
        }),
{
    let scheme = match force {
        Some(f) => f,
        None => base.0->0,
    };
    assert(!is_tls_scheme(base.0)) by {
        let sc = base.0->0;
        assert(sc.len() == 2 || sc.len() == 4);
        assert(seq!['h', 't', 't', 'p', 's'].len() == 5 && seq!['w', 's', 's'].len() == 3);
    }
    assert(route_scheme(base, force) == scheme);
    reveal_with_fuel(decimal, 3);
    assert(decimal(80) =~= seq!['8', '0']);
    let head = scheme + seq![':', '/', '/'] + or_empty(base.2) + seq![':', '8', '0'];
    let prefix = head + base.4;
    assert(route_scheme(base, force) + seq![':', '/', '/'] + or_empty(base.2) + seq![':'] + decimal(
        80,
    ) + base.4 =~= prefix);
    let q = match base.5 {
        Some(q) => seq!['?'] + q,
        None => Seq::<char>::empty(),
    };
    if prefix.len() > 0 && prefix.last() == '/' {
        assert(head.last() == '0');
        lemma_trim_keeps_front(head, base.4);
        let url = trim_trailing_slashes(prefix) + path;
        assert((url + q).take(head.len() as int) =~= trim_trailing_slashes(prefix).take(head.len() as int));
    } else {
        assert((prefix + path + q).take(head.len() as int) =~= head);
    }
}

/// The chars that may stand in a URI query as it is: `!`, `$` to `;`, `=`, and
/// `?` to `~` (no space, control char, `"`, `#`, `<` or `>`).
pub open spec fn query_char_ok(c: char) -> bool {
    c == '!' || ('$' <= c && c <= ';') || c == '=' || ('?' <= c && c <= '~')
}

/// Percent-encoding leaves only chars that may stand in a URI query: every
/// control byte, space, and byte outside ASCII is written as `%XX`.
pub proof fn lemma_percent_encoded_query_safe(b: Seq<u8>)
    ensures
        forall|i: int| 0 <= i < percent_encoded(b).len() ==> query_char_ok(#[trigger] percent_encoded(b)[i]),
        forall|x: u8| (x < 0x20 || x == 0x7f || x >= 0x80 || x == 0x20) ==> #[trigger] encoded_byte(x).len() == 3
            && encoded_byte(x)[0] == '%',
    decreases b.len(),
{
    if b.len() > 0 {
        lemma_percent_encoded_query_safe(b.drop_last());
        let x = b.last();
        let p = percent_encoded(b.drop_last());
        let e = encoded_byte(x);
        assert forall|i: int| 0 <= i < e.len() implies query_char_ok(#[trigger] e[i]) by {
            if query_encodes(x) {
                lemma_hex_upper_query_safe((x / 16) as nat);
                lemma_hex_upper_query_safe((x % 16) as nat);
            } else {
                assert(e[i] == x as char);
            }
        }
        assert forall|i: int| 0 <= i < percent_encoded(b).len() implies query_char_ok(
            #[trigger] percent_encoded(b)[i],
        ) by {
            if i < p.len() {
                assert(percent_encoded(b)[i] == p[i]);
            } else {
                assert(percent_encoded(b)[i] == e[i - p.len()]);
            }
        }
    }
}

/// Hexadecimal digits may stand in a URI query.
proof fn lemma_hex_upper_query_safe(d: nat)
    requires
        d < 16,
    ensures
        query_char_ok(hex_upper(d)),
{
}

/// Appends the chars of `s`.
fn push_all(out: &mut Vec<char>, s: &[char])
    ensures
        final(out)@ == old(out)@ + s@,
{
    let mut i: usize = 0;
    while i < s.len()
        invariant
            i <= s@.len(),
            out@ == old(out)@ + s@.take(i as int),
        decreases s@.len() - i,
    {
        out.push(s[i]);
        i = i + 1;
        assert(out@ =~= old(out)@ + s@.take(i as int));
    }
    assert(s@.take(i as int) =~= s@);
}

/// Drops the trailing `/` chars.
fn trim_slashes(v: &mut Vec<char>)
    ensures
        final(v)@ == trim_trailing_slashes(old(v)@),
{
    while v.len() > 0 && v[v.len() - 1] == '/'
        invariant
            trim_trailing_slashes(v@) == trim_trailing_slashes(old(v)@),
        decreases v@.len(),
    {
        v.pop();
    }
}

/// Builds the URI of the route `path` below `base_url`.
///
/// `force_scheme`, if given, replaces the scheme of `base_url`; an `s` is
/// appended to it when `base_url` uses TLS (`https` or `wss`) and it does not
/// end in `s` already (`http` becomes `https`).
///
/// # Errors
/// When the text built is not a valid URI.
pub fn build_uri(base_url: &UriParts, path: &str, force_scheme: Option<&str>) -> (r: Result<
    UriParts,
    String,
>)
    ensures
        match r {
            Ok(u) => u.text() == route_uri_text(base_url.parts(), path@, match force_scheme {
                Some(f) => Some(f@),
                None => None,
            }) && u.wf() && parsed_uri(u.text()) == Some(u.parts()),
            Err(_) => parsed_uri(
                route_uri_text(base_url.parts(), path@, match force_scheme {
                    Some(f) => Some(f@),
                    None => None,
                }),
            ) is None,
        },
{
    let is_tls = match base_url.scheme_str() {
        Some(s) => {
            let c = chars_of(s);
            crate::text::chars_eq(c.as_slice(), &['h', 't', 't', 'p', 's']) || crate::text::chars_eq(
                c.as_slice(),
                &['w', 's', 's'],
            )
        },
        None => false,
    };
    proof {
        assert(is_tls == is_tls_scheme(base_url.parts().0)) by {
            let a = seq!['h', 't', 't', 'p', 's'];
            let b = seq!['w', 's', 's'];
            assert(a.len() == 5 && b.len() == 3);
        }
    }
    let ghost forced = match force_scheme {
        Some(f) => Some(f@),
        None => None,
    };
    let ghost base = base_url.parts();
    let mut out: Vec<char> = match force_scheme {
        Some(f) => {
            let mut c = chars_of(f);
            if is_tls && !(c.len() > 0 && c[c.len() - 1] == 's') {
                c.push('s');
            }
            c
        },
        None => match base_url.scheme_str() {
            Some(s) => chars_of(s),
            None => Vec::new(),
        },
    };
    assert(out@ == route_scheme(base, forced));
    out.push(':');
    out.push('/');
    out.push('/');
    match base_url.host() {
        Some(h) => push_all(&mut out, chars_of(h).as_slice()),
        None => {},
    }
    out.push(':');
    let port: u16 = match base_url.port_u16() {
        Some(p) => p,
        None => if is_tls {
            443
        } else {
            80
        },
    };
    push_all(&mut out, decimal_chars(port).as_slice());
    push_all(&mut out, chars_of(base_url.path()).as_slice());
    let ghost port_n: nat = match base.3 {
        Some(p) => p as nat,
        None => if is_tls_scheme(base.0) {
            443
        } else {
            80
        },
    };
    let ghost prefix = route_scheme(base, forced) + seq![':', '/', '/'] + or_empty(base.2) + seq![
        ':',
    ] + decimal(port_n) + base.4;
    assert(out@ =~= prefix);
    if out.len() > 0 && out[out.len() - 1] == '/' {
        trim_slashes(&mut out);
    }
    push_all(&mut out, chars_of(path).as_slice());
    let ghost url = if prefix.len() > 0 && prefix.last() == '/' {
        trim_trailing_slashes(prefix) + path@
    } else {
        prefix + path@
    };
    assert(out@ =~= url);
    match base_url.query() {
        Some(q) => {
            out.push('?');
            push_all(&mut out, chars_of(q).as_slice());
        },
        None => {},
    }
    assert(out@ =~= route_uri_text(base, path@, forced));
    let text = string_from_chars(out.as_slice());
    parse_uri(text.as_str())
}

impl UriParts {
    /// Parses `text` as a URI.
    ///
    /// # Errors
    /// When `text` is not a valid URI.
    pub fn parse(text: &str) -> (r: Result<UriParts, String>)
        ensures
            match r {
                Ok(u) => u.text() == text@ && u.wf() && parsed_uri(text@) == Some(u.parts()),
                Err(_) => parsed_uri(text@) is None,
            },
    {
        parse_uri(text)
    }
}

/// The bytes that query components percent-encode: every byte outside ASCII,
/// the control characters, space, and `"#$%&+,/:;<=>?@[\]^`{|}~`.
pub open spec fn query_encodes(b: u8) -> bool {
    b >= 0x80 || b < 0x20 || b == 0x7f || b == 0x20 || b == 0x22 || b == 0x23 || b == 0x24 || b
        == 0x25 || b == 0x26 || b == 0x2b || b == 0x2c || b == 0x2f || b == 0x3a || b == 0x3b || b
        == 0x3c || b == 0x3d || b == 0x3e || b == 0x3f || b == 0x40 || b == 0x5b || b == 0x5c || b
        == 0x5d || b == 0x5e || b == 0x60 || b == 0x7b || b == 0x7c || b == 0x7d || b == 0x7e
}

/// The upper-case hexadecimal digit of `d`.
pub open spec fn hex_upper(d: nat) -> char {
    if d < 10 {
        digit_char(d)
    } else if d == 10 {
        'A'
    } else if d == 11 {
        'B'
    } else if d == 12 {
        'C'
    } else if d == 13 {
        'D'
    } else if d == 14 {
        'E'
    } else {
        'F'
    }
}

/// How a byte of a query component is written: `%XX` (upper-case) when it is
/// percent-encoded, else as the ASCII char it is.
pub open spec fn encoded_byte(b: u8) -> Seq<char> {
    if query_encodes(b) {
        seq!['%', hex_upper((b / 16) as nat), hex_upper((b % 16) as nat)]
    } else {
        seq![b as char]
    }
}

/// The percent-encoding of the bytes `b` of a query component.
pub open spec fn percent_encoded(b: Seq<u8>) -> Seq<char>
    decreases b.len(),
{
    if b.len() == 0 {
        Seq::empty()
    } else {
        percent_encoded(b.drop_last()) + encoded_byte(b.last())
    }
}

/// The `%XX` text of a byte.
///
/// Calls `percent_encoding::percent_encode_byte`; the contract claims that it
/// gives `%` and the two upper-case hexadecimal digits of the byte.
#[verifier::external_body]
fn percent_encode_byte(b: u8) -> (r: &'static str)
    ensures
        r@ == seq!['%', hex_upper((b / 16) as nat), hex_upper((b % 16) as nat)],
{
    percent_encoding::percent_encode_byte(b)
}

/// Percent-encodes a query component (a parameter name or value).
pub fn encode_query_component(s: &str) -> (r: Vec<char>)
    ensures
        r@ == percent_encoded(encode_utf8(s@)),
{
    let bytes = s.as_bytes();
    let mut out: Vec<char> = Vec::new();
    let mut i: usize = 0;
    while i < bytes.len()
        invariant
            i <= bytes@.len(),
            bytes@ == encode_utf8(s@),
            out@ == percent_encoded(bytes@.take(i as int)),
        decreases bytes@.len() - i,
    {
        let b = bytes[i];
        proof {
            assert(bytes@.take(i + 1).drop_last() =~= bytes@.take(i as int));
        }
        if b >= 0x80 || b < 0x20 || b == 0x7f || b == 0x20 || b == 0x22 || b == 0x23 || b == 0x24
            || b == 0x25 || b == 0x26 || b == 0x2b || b == 0x2c || b == 0x2f || b == 0x3a || b
            == 0x3b || b == 0x3c || b == 0x3d || b == 0x3e || b == 0x3f || b == 0x40 || b == 0x5b
            || b == 0x5c || b == 0x5d || b == 0x5e || b == 0x60 || b == 0x7b || b == 0x7c || b
            == 0x7d || b == 0x7e {
            let e = chars_of(percent_encode_byte(b));
            push_all(&mut out, e.as_slice());
        } else {
            out.push(b as char);
        }
        i = i + 1;
        proof {
            assert(out@ =~= percent_encoded(bytes@.take(i as int)));
        }
    }
    assert(bytes@.take(i as int) =~= bytes@);
    out
}

/// The text of one parameter of a query: `name=value`, both percent-encoded.
pub open spec fn param_text(p: (Seq<char>, Seq<char>)) -> Seq<char> {
    percent_encoded(encode_utf8(p.0)) + seq!['='] + percent_encoded(encode_utf8(p.1))
}

/// The parameters joined by `&`.
pub open spec fn params_text(params: Seq<(Seq<char>, Seq<char>)>) -> Seq<char>
    decreases params.len(),
{
    if params.len() == 0 {
        Seq::empty()
    } else if params.len() == 1 {
        param_text(params[0])
    } else {
        params_text(params.drop_last()) + seq!['&'] + param_text(params.last())
    }
}

/// The text of the URI with the query `query_text` appended to its query:
/// `scheme://authority` (`http` and `localhost` standing in for missing parts),
/// the path, `?`, the existing query and `&` when there is a non-empty one, then
/// `query_text`.
pub open spec fn appended_uri_text(u: UriView, query_text: Seq<char>) -> Seq<char> {
    let existing = or_empty(u.5);
    let new_query = if existing.len() == 0 {
        query_text
    } else {
        existing + seq!['&'] + query_text
    };
    (match u.0 {
        Some(s) => s,
        None => seq!['h', 't', 't', 'p'],
    }) + seq![':', '/', '/'] + (match u.1 {
        Some(a) => a,
        None => seq!['l', 'o', 'c', 'a', 'l', 'h', 'o', 's', 't'],
    }) + u.4 + seq!['?'] + new_query
}

/// The views of name-value pairs.
pub open spec fn pairs_view(params: Seq<(String, String)>) -> Seq<(Seq<char>, Seq<char>)> {
    params.map_values(|p: (String, String)| (p.0@, p.1@))
}

impl UriParts {
    /// A copy of the URI.
    pub fn copy(&self) -> (r: Self)
        ensures
            r.text() == self.text(),
            r.parts() == self.parts(),
            r.wf() == self.wf(),
    {
        UriParts {
            text: self.text.clone(),
            scheme: match &self.scheme {
                Some(s) => Some(s.clone()),
                None => None,
            },
            authority: match &self.authority {
                Some(s) => Some(s.clone()),
                None => None,
            },
            host: match &self.host {
                Some(s) => Some(s.clone()),
                None => None,
            },
            port: self.port,
            path: self.path.clone(),
            query: match &self.query {
                Some(s) => Some(s.clone()),
                None => None,
            },
        }
    }
}

/// Appends query parameters to a URI.
///
/// Each parameter becomes `name=value`, both sides percent-encoded, joined by
/// `&` in the order given, after the existing query if there is a non-empty
/// one. With no parameters, or when the text built is not a valid URI, the URI
/// comes back unchanged.
///
/// Appended to a parsed URI without a query, the parameters read back: the
/// query of the result is their text, and when their names are distinct, all
/// the arguments of that query are exactly the parameters, each name found with
/// its value.
pub fn append_query_params(uri: &UriParts, params: &Vec<(String, String)>) -> (r: UriParts)
    ensures
        ({
            let text = appended_uri_text(uri.parts(), params_text(pairs_view(params@)));
            if params@.len() == 0 || parsed_uri(text) is None {
                r.text() == uri.text() && r.parts() == uri.parts() && r.wf() == uri.wf()
            } else {
                r.text() == text && r.wf()
            }
        }),
        ({
            let text = appended_uri_text(uri.parts(), params_text(pairs_view(params@)));
            params@.len() > 0 && parsed_uri(text) is Some && uri.wf() && or_empty(uri.parts().5).len()
                == 0 ==> r.parts().5 == Some(params_text(pairs_view(params@)))
        }),
        ({
            let text = appended_uri_text(uri.parts(), params_text(pairs_view(params@)));
            let ps = pairs_view(params@);
            params@.len() > 0 && parsed_uri(text) is Some && uri.wf() && or_empty(uri.parts().5).len()
                == 0 && names_unique(ps) ==> query_entries(r.parts().5) == ps && forall|i: int|
                0 <= i < ps.len() ==> query_argument(r.parts().5, #[trigger] ps[i].0) == Some(ps[i].1)
        }),
{
    if params.len() == 0 {
        return uri.copy();
    }
    let ghost pv = pairs_view(params@);
    let mut qs: Vec<char> = Vec::new();
    let mut i: usize = 0;
    while i < params.len()
        invariant
            1 <= params@.len(),
            i <= params@.len(),
            pv == pairs_view(params@),
            qs@ == params_text(pv.take(i as int)),
        decreases params@.len() - i,
    {
        proof {
            assert(pv.take(i + 1).drop_last() =~= pv.take(i as int));
            assert(pv.take(i + 1).last() == pv[i as int]);
        }
        if i > 0 {
            qs.push('&');
        }
        let k = encode_query_component(params[i].0.as_str());
        push_all(&mut qs, k.as_slice());
        qs.push('=');
        let v = encode_query_component(params[i].1.as_str());
        push_all(&mut qs, v.as_slice());
        i = i + 1;
        proof {
            if i == 1 {
                assert(pv.take(1) =~= seq![pv[0]]);
            }
            assert(qs@ =~= params_text(pv.take(i as int)));
        }
    }
    assert(pv.take(i as int) =~= pv);
    let mut out: Vec<char> = match uri.scheme_str() {
        Some(s) => chars_of(s),
        None => vec!['h', 't', 't', 'p'],
    };
    out.push(':');
    out.push('/');
    out.push('/');
    match uri.authority_str() {
        Some(a) => push_all(&mut out, chars_of(a).as_slice()),
        None => push_all(&mut out, &['l', 'o', 'c', 'a', 'l', 'h', 'o', 's', 't']),
    }
    push_all(&mut out, chars_of(uri.path()).as_slice());
    out.push('?');
    match uri.query() {
        Some(q) => {
            let qc = chars_of(q);
            if qc.len() > 0 {
                push_all(&mut out, qc.as_slice());
                out.push('&');
            }
        },
        None => {},
    }
    push_all(&mut out, qs.as_slice());
    assert(out@ =~= appended_uri_text(uri.parts(), params_text(pv)));
    let text = string_from_chars(out.as_slice());
    match parse_uri(text.as_str()) {
        Ok(u) => {
            proof {
                if uri.wf() && or_empty(uri.parts().5).len() == 0 {
                    lemma_appended_query(uri.parts(), pv);
                    if names_unique(pv) {
                        lemma_params_read_back(pv);
                    }
                }
            }
            u
        },
        Err(_) => uri.copy(),
    }
}

/// Two texts without `c` make a text without `c`.
proof fn lemma_lacks_concat(a: Seq<char>, b: Seq<char>, c: char)
    requires
        lacks(a, c),
        lacks(b, c),
    ensures
        lacks(a + b, c),
{
    assert forall|i: int| 0 <= i < (a + b).len() implies #[trigger] (a + b)[i] != c by {
        if i < a.len() {
            assert((a + b)[i] == a[i]);
        } else {
            assert((a + b)[i] == b[i - a.len()]);
        }
    }
}

/// The text of parameters holds no `#`.
proof fn lemma_params_text_lacks_hash(ps: Seq<(Seq<char>, Seq<char>)>)
    ensures
        lacks(params_text(ps), '#'),
    decreases ps.len(),
{
    if ps.len() > 0 {
        let p = ps.last();
        lemma_percent_encoded_plain(encode_utf8(p.0));
        lemma_percent_encoded_plain(encode_utf8(p.1));
        let k = percent_encoded(encode_utf8(p.0));
        let v = percent_encoded(encode_utf8(p.1));
        assert(lacks(k, '#'));
        assert(lacks(v, '#'));
        assert(lacks(seq!['='], '#'));
        lemma_lacks_concat(k, seq!['='], '#');
        lemma_lacks_concat(k + seq!['='], v, '#');
        if ps.len() == 1 {
            assert(ps[0] == p);
        } else {
            lemma_params_text_lacks_hash(ps.drop_last());
            assert(lacks(seq!['&'], '#'));
            lemma_lacks_concat(params_text(ps.drop_last()), seq!['&'], '#');
            lemma_lacks_concat(params_text(ps.drop_last()) + seq!['&'], param_text(p), '#');
        }
    }
}

/// The first `?` of `prefix?q`, when `prefix` holds none, is the one before `q`.
proof fn lemma_query_after_mark(prefix: Seq<char>, q: Seq<char>)
    requires
        lacks(prefix, '?'),
    ensures
        query_after_mark(prefix + seq!['?'] + q) == Some(q),
{
    let t = prefix + seq!['?'] + q;
    let n = prefix.len() as int;
    assert(t[n] == '?');
    assert forall|j: int| 0 <= j < n implies t[j] != '?' by {
        assert(t[j] == prefix[j]);
    }
    assert(exists|i: int| 0 <= i < t.len() && t[i] == '?');
    let m = choose|i: int| 0 <= i < t.len() && t[i] == '?' && forall|j: int| 0 <= j < i ==> t[j] != '?';
    if m < n {
        assert(t[m] == prefix[m]);
    }
    if m > n {
        assert(t[n] != '?');
    }
    assert(first_index(t, '?') == Some(n));
    assert(t.skip(n + 1) =~= q);
}

/// Appending parameters to a parsed URI with no query: if the text parses, its
/// query is exactly the text of the parameters.
proof fn lemma_appended_query(u: UriView, ps: Seq<(Seq<char>, Seq<char>)>)
    requires
        lacks(or_empty(u.0), '?') && lacks(or_empty(u.0), '#'),
        lacks(or_empty(u.1), '?') && lacks(or_empty(u.1), '#'),
        lacks(u.4, '?') && lacks(u.4, '#'),
        or_empty(u.5).len() == 0,
    ensures
        lacks(appended_uri_text(u, params_text(ps)), '#'),
        query_after_mark(appended_uri_text(u, params_text(ps))) == Some(params_text(ps)),
{
    let sch = match u.0 {
        Some(s) => s,
        None => seq!['h', 't', 't', 'p'],
    };
    let auth = match u.1 {
        Some(a) => a,
        None => seq!['l', 'o', 'c', 'a', 'l', 'h', 'o', 's', 't'],
    };
    assert(lacks(sch, '?') && lacks(sch, '#'));
    assert(lacks(auth, '?') && lacks(auth, '#'));
    let sep = seq![':', '/', '/'];
    assert(lacks(sep, '?') && lacks(sep, '#'));
    lemma_lacks_concat(sch, sep, '?');
    lemma_lacks_concat(sch, sep, '#');
    lemma_lacks_concat(sch + sep, auth, '?');
    lemma_lacks_concat(sch + sep, auth, '#');
    lemma_lacks_concat(sch + sep + auth, u.4, '?');
    lemma_lacks_concat(sch + sep + auth, u.4, '#');
    let prefix = sch + sep + auth + u.4;
    let q = params_text(ps);
    lemma_params_text_lacks_hash(ps);
    assert(lacks(seq!['?'], '#'));
    lemma_lacks_concat(prefix, seq!['?'], '#');
    lemma_lacks_concat(prefix + seq!['?'], q, '#');
    assert(appended_uri_text(u, q) =~= prefix + seq!['?'] + q);
    lemma_query_after_mark(prefix, q);
}

/// The UTF-8 encoding of two texts one after the other is the encoding of the
/// first followed by that of the second.
pub proof fn lemma_encode_utf8_concat(a: Seq<char>, b: Seq<char>)
    ensures
        encode_utf8(a + b) == encode_utf8(a) + encode_utf8(b),
    decreases a.len(),
{
    if a.len() == 0 {
        assert(a + b =~= b);
    } else {
        lemma_encode_utf8_concat(a.drop_first(), b);
        assert((a + b).drop_first() =~= a.drop_first() + b);
        assert((a + b)[0] == a[0]);
    }
}

/// An ASCII char is encoded as the one byte of its code.
proof fn lemma_encode_ascii(c: char)
    requires
        (c as u32) < 128,
    ensures
        encode_utf8(seq![c]) == seq![(c as u32) as u8],
{
    let u = c as u32;
    assert(seq![c].drop_first() =~= Seq::<char>::empty());
    assert(leading_byte_width_1(u) == u as u8) by (bit_vector)
        requires
            u < 128,
    ;
    assert(encode_scalar(u) == seq![u as u8]);
    assert(seq![c][0] == c);
    assert(encode_utf8(Seq::<char>::empty()) =~= Seq::<u8>::empty());
    assert(encode_utf8(seq![c]) == encode_scalar(u) + encode_utf8(seq![c].drop_first()));
    assert(encode_scalar(u) + Seq::<u8>::empty() =~= seq![u as u8]);
}

proof fn lemma_hex_upper_roundtrip(d: nat)
    requires
        d < 16,
    ensures
        (hex_upper(d) as u32) < 128,
        hex_value(((hex_upper(d) as u32) as u8)) == Some(d as u8),
        hex_upper(d) != '%' && hex_upper(d) != '+' && hex_upper(d) != '&' && hex_upper(d) != '=',
        hex_upper(d) != '#',
{
}

/// The percent-encoding of bytes, read front to back.
proof fn lemma_percent_encoded_front(b: Seq<u8>)
    requires
        b.len() > 0,
    ensures
        percent_encoded(b) == encoded_byte(b[0]) + percent_encoded(b.drop_first()),
    decreases b.len(),
{
    if b.len() == 1 {
        assert(b.drop_last() =~= Seq::<u8>::empty());
        assert(b.drop_first() =~= Seq::<u8>::empty());
        assert(percent_encoded(b) =~= encoded_byte(b[0]));
    } else {
        lemma_percent_encoded_front(b.drop_last());
        assert(b.drop_last().drop_first() =~= b.drop_first().drop_last());
        assert(b.drop_first().last() == b.last());
        assert(b.drop_last()[0] == b[0]);
        assert(percent_encoded(b) =~= encoded_byte(b[0]) + percent_encoded(b.drop_first()));
    }
}

/// The percent-encoding of bytes holds only ASCII chars, and no `+`, `&`, `=`
/// or `#`.
pub proof fn lemma_percent_encoded_plain(b: Seq<u8>)
    ensures
        forall|i: int| 0 <= i < percent_encoded(b).len() ==> (#[trigger] percent_encoded(b)[i] as u32) < 128
            && percent_encoded(b)[i] != '+' && percent_encoded(b)[i] != '&' && percent_encoded(b)[i]
            != '=' && percent_encoded(b)[i] != '#',
    decreases b.len(),
{
    if b.len() > 0 {
        lemma_percent_encoded_plain(b.drop_last());
        let x = b.last();
        if query_encodes(x) {
            lemma_hex_upper_roundtrip((x / 16) as nat);
            lemma_hex_upper_roundtrip((x % 16) as nat);
        } else {
            assert(((x as char) as u32) == x as u32);
        }
        let p = percent_encoded(b.drop_last());
        let e = encoded_byte(x);
        assert forall|i: int| 0 <= i < percent_encoded(b).len() implies (#[trigger] percent_encoded(
            b,
        )[i] as u32) < 128 && percent_encoded(b)[i] != '+' && percent_encoded(b)[i] != '&'
            && percent_encoded(b)[i] != '=' && percent_encoded(b)[i] != '#' by {
            if i < p.len() {
                assert(percent_encoded(b)[i] == p[i]);
            } else {
                assert(percent_encoded(b)[i] == e[i - p.len()]);
            }
        }
    }
}

/// A text without `+` is its own `+`-for-space rewriting.
proof fn lemma_plus_as_space_plain(s: Seq<char>)
    requires
        forall|i: int| 0 <= i < s.len() ==> #[trigger] s[i] != '+',
    ensures
        plus_as_space(s) == s,
    decreases s.len(),
{
    if s.len() > 0 {
        lemma_plus_as_space_plain(s.drop_last());
        assert(s.drop_last() + seq![s.last()] =~= s);
    }
}

/// Percent-decoding the (UTF-8 bytes of the) percent-encoding of bytes gives
/// the bytes back.
proof fn lemma_decode_encoded_bytes(b: Seq<u8>)
    ensures
        percent_decoded(encode_utf8(percent_encoded(b))) == b,
    decreases b.len(),
{
    if b.len() == 0 {
        assert(percent_encoded(b) =~= Seq::<char>::empty());
    } else {
        let x = b[0];
        let rest = b.drop_first();
        lemma_percent_encoded_front(b);
        lemma_decode_encoded_bytes(rest);
        lemma_encode_utf8_concat(encoded_byte(x), percent_encoded(rest));
        let tail = encode_utf8(percent_encoded(rest));
        if query_encodes(x) {
            let h = hex_upper((x / 16) as nat);
            let l = hex_upper((x % 16) as nat);
            lemma_hex_upper_roundtrip((x / 16) as nat);
            lemma_hex_upper_roundtrip((x % 16) as nat);
            assert(encoded_byte(x) =~= seq!['%'] + (seq![h] + seq![l]));
            lemma_encode_utf8_concat(seq!['%'], seq![h] + seq![l]);
            lemma_encode_utf8_concat(seq![h], seq![l]);
            lemma_encode_ascii('%');
            lemma_encode_ascii(h);
            lemma_encode_ascii(l);
            let bytes = seq![37u8, (h as u32) as u8, (l as u32) as u8] + tail;
            assert(encode_utf8(encoded_byte(x)) + tail =~= bytes);
            assert(bytes.skip(3) =~= tail);
            assert((x / 16) * 16 + x % 16 == x);
            assert(percent_decoded(bytes) == seq![x] + percent_decoded(tail));
        } else {
            let c = x as char;
            assert((c as u32) == x as u32);
            lemma_encode_ascii(c);
            let bytes = seq![x] + tail;
            assert(encode_utf8(encoded_byte(x)) + tail =~= bytes);
            assert(bytes.skip(1) =~= tail);
            assert(x != 37);
            assert(percent_decoded(bytes) == seq![x] + percent_decoded(tail));
        }
        assert(seq![x] + rest =~= b);
    }
}

/// URL-decoding a percent-encoded query component gives back the text that was
/// encoded: a parameter set by a client reads back unchanged on the server.
pub proof fn lemma_decode_encoded(s: Seq<char>)
    ensures
        url_decoded(percent_encoded(encode_utf8(s))) == Some(s),
{
    let e = percent_encoded(encode_utf8(s));
    lemma_percent_encoded_plain(encode_utf8(s));
    lemma_plus_as_space_plain(e);
    lemma_decode_encoded_bytes(encode_utf8(s));
    vstd::utf8::encode_utf8_valid_utf8(s);
    vstd::utf8::encode_utf8_decode_utf8(s);
}

} // verus!
