//! Peer addresses, the real client address behind proxies, and the WebSocket
//! upgrade handshake of incoming HTTP requests.

use crate::headers::{ascii_text, first_value, header_entries, header_key, header_visible};
use crate::headers::{get_header_in, header_first_value};
use crate::table::TableKey;
use crate::text::{chars_of, string_from_chars, sub_chars};
use hyper::HeaderMap;
use vstd::prelude::*;

verus! {

/// An IP address: version 4 as its 32 bits, version 6 as its 128 bits.
#[derive(Debug, Clone, Copy, PartialEq, Eq, Hash, Structural)]
pub enum IpAddress {
    V4(u32),
    V6(u128),
}

/// An IP address with a port.
#[derive(Debug, Clone, Copy, PartialEq, Eq, Hash, Structural)]
pub struct SocketAddress {
    pub ip: IpAddress,
    pub port: u16,
}

impl View for SocketAddress {
    type V = SocketAddress;

    open spec fn view(&self) -> SocketAddress {
        *self
    }
}

impl TableKey for SocketAddress {
    fn key_eq(&self, other: &Self) -> (r: bool) {
        *self == *other
    }
}

/// A key made of a route path and a peer address.
#[derive(Debug, Clone)]
pub struct ConnKey {
    pub path: String,
    pub addr: SocketAddress,
}

impl View for ConnKey {
    type V = (Seq<char>, SocketAddress);

    open spec fn view(&self) -> (Seq<char>, SocketAddress) {
        (self.path@, self.addr)
    }
}

impl TableKey for ConnKey {
    fn key_eq(&self, other: &Self) -> (r: bool) {
        String::eq(&self.path, &other.path) && self.addr == other.addr
    }
}

/// A key made of a route path, a peer address and a request id.
#[derive(Debug, Clone)]
pub struct CallKey {
    pub path: String,
    pub addr: SocketAddress,
    pub id: u8,
}

impl View for CallKey {
    type V = (Seq<char>, SocketAddress, u8);

    open spec fn view(&self) -> (Seq<char>, SocketAddress, u8) {
        (self.path@, self.addr, self.id)
    }
}

impl TableKey for CallKey {
    fn key_eq(&self, other: &Self) -> (r: bool) {
        String::eq(&self.path, &other.path) && self.addr == other.addr && self.id == other.id
    }
}

/// `s` without the spaces and tabs at both ends.
pub open spec fn trim_blank(s: Seq<char>) -> Seq<char>
    decreases s.len(),
{
    if s.len() > 0 && (s[0] == ' ' || s[0] == '\t') {
        trim_blank(s.drop_first())
    } else if s.len() > 0 && (s.last() == ' ' || s.last() == '\t') {
        trim_blank(s.drop_last())
    } else {
        s
    }
}

/// The text of a header value read as text, if it has one.
pub open spec fn header_text(m: HeaderMap, name: Seq<char>) -> Option<Seq<char>> {
    match header_key(name) {
        Some(k) => match first_value(header_entries(m), k) {
            Some(v) => if header_visible(v) {
                Some(ascii_text(v))
            } else {
                None
            },
            None => None,
        },
        None => None,
    }
}

/// The part of `s` before its first `,`.
pub open spec fn before_comma(s: Seq<char>) -> Seq<char> {
    match crate::text::first_index(s, ',') {
        Some(i) => s.take(i),
        None => s,
    }
}

/// The texts that may hold the client's real address, in order of preference:
/// the first entry of `X-Forwarded-For`, then `X-Real-IP`, both trimmed.
pub open spec fn real_ip_texts(m: HeaderMap) -> (Option<Seq<char>>, Option<Seq<char>>) {
    (
        match header_text(m, seq!['x', '-', 'f', 'o', 'r', 'w', 'a', 'r', 'd', 'e', 'd', '-', 'f', 'o', 'r']) {
            Some(t) => Some(trim_blank(before_comma(t))),
            None => None,
        },
        match header_text(m, seq!['x', '-', 'r', 'e', 'a', 'l', '-', 'i', 'p']) {
            Some(t) => Some(trim_blank(t)),
            None => None,
        },
    )
}

/// Trims spaces and tabs at both ends.
fn trim_blank_chars(s: Vec<char>) -> (r: Vec<char>)
    ensures
        r@ == trim_blank(s@),
{
    let mut start: usize = 0;
    let mut end: usize = s.len();
    assert(s@.subrange(0, s@.len() as int) =~= s@);
    while start < end && (s[start] == ' ' || s[start] == '\t')
        invariant
            start <= end <= s@.len(),
            end == s@.len(),
            trim_blank(s@) == trim_blank(s@.subrange(start as int, end as int)),
        decreases end - start,
    {
        proof {
            assert(s@.subrange(start as int, end as int).drop_first() =~= s@.subrange(
                start + 1,
                end as int,
            ));
        }
        start = start + 1;
    }
    while start < end && (s[end - 1] == ' ' || s[end - 1] == '\t')
        invariant
            start <= end <= s@.len(),
            start < end ==> s@[start as int] != ' ' && s@[start as int] != '\t',
            trim_blank(s@) == trim_blank(s@.subrange(start as int, end as int)),
        decreases end - start,
    {
        proof {
            let t = s@.subrange(start as int, end as int);
            assert(t.drop_last() =~= s@.subrange(start as int, end - 1));
            assert(t[0] == s@[start as int]);
        }
        end = end - 1;
    }
    proof {
        let t = s@.subrange(start as int, end as int);
        if t.len() > 0 {
            assert(t[0] == s@[start as int]);
            assert(t.last() == s@[end - 1]);
        }
    }
    sub_chars(s.as_slice(), start, end)
}

/// Finds the texts that may hold the client's real address behind proxies:
/// the first entry of `X-Forwarded-For` and `X-Real-IP`, trimmed. Parsing them
/// as IP addresses is left to the caller; [`choose_real_ip`] then decides.
pub fn real_ip_candidates(headers: &HeaderMap) -> (r: (Option<String>, Option<String>))
    ensures
        (match r.0 {
            Some(s) => Some(s@),
            None => None,
        }) == real_ip_texts(*headers).0,
        (match r.1 {
            Some(s) => Some(s@),
            None => None,
        }) == real_ip_texts(*headers).1,
{
    let forwarded = match get_header_in(headers, "x-forwarded-for") {
        Some(t) => {
            let c = chars_of(t);
            let first = match crate::text::find_char(c.as_slice(), ',') {
                Some(i) => {
                    let f = sub_chars(c.as_slice(), 0, i);
                    assert(f@ =~= before_comma(c@));
                    f
                },
                None => c,
            };
            Some(string_from_chars(trim_blank_chars(first).as_slice()))
        },
        None => None,
    };
    let real_ip = match get_header_in(headers, "x-real-ip") {
        Some(t) => Some(string_from_chars(trim_blank_chars(chars_of(t)).as_slice())),
        None => None,
    };
    proof {
        reveal_strlit("x-forwarded-for");
        reveal_strlit("x-real-ip");
        assert("x-forwarded-for"@ =~= seq!['x', '-', 'f', 'o', 'r', 'w', 'a', 'r', 'd', 'e', 'd', '-', 'f', 'o', 'r']);
        assert("x-real-ip"@ =~= seq!['x', '-', 'r', 'e', 'a', 'l', '-', 'i', 'p']);
    }
    (forwarded, real_ip)
}

/// The client's real address: the address parsed from `X-Forwarded-For` if it
/// parsed, else the one from `X-Real-IP`, each with the port of the peer; the
/// peer's own address when neither parsed.
pub fn choose_real_ip(
    forwarded: Option<IpAddress>,
    real_ip: Option<IpAddress>,
    peer: SocketAddress,
) -> (r: SocketAddress)
    ensures
        r == match forwarded {
            Some(ip) => SocketAddress { ip, port: peer.port },
            None => match real_ip {
                Some(ip) => SocketAddress { ip, port: peer.port },
                None => peer,
            },
        },
{
    match forwarded {
        Some(ip) => SocketAddress { ip, port: peer.port },
        None => match real_ip {
            Some(ip) => SocketAddress { ip, port: peer.port },
            None => peer,
        },
    }
}

/// `c` lower-cased if it is an ASCII capital letter.
pub open spec fn ascii_lower(c: char) -> char {
    if 'A' <= c <= 'Z' {
        ((c as u32) + 32) as char
    } else {
        c
    }
}

/// Whether two texts are equal up to ASCII case.
pub open spec fn eq_ignore_ascii_case(a: Seq<char>, b: Seq<char>) -> bool {
    a.len() == b.len() && forall|i: int| 0 <= i < a.len() ==> #[trigger] ascii_lower(a[i]) == ascii_lower(b[i])
}

/// Whether a char separates the tokens of a `Connection` header.
pub open spec fn is_token_sep(c: char) -> bool {
    c == ' ' || c == ','
}

/// Whether `word` is one of the tokens of `s` (tokens are separated by spaces
/// and commas), up to ASCII case.
pub open spec fn has_token(s: Seq<char>, word: Seq<char>) -> bool {
    exists|i: int|
        0 <= i && i + word.len() <= s.len() && (i == 0 || is_token_sep(s[i - 1])) && (i
            + word.len() == s.len() || is_token_sep(s[i + word.len()])) && #[trigger] eq_ignore_ascii_case(
            s.subrange(i, i + word.len()),
            word,
        )
}

fn lower(c: char) -> (r: char)
    ensures
        r == ascii_lower(c),
{
    if 'A' <= c && c <= 'Z' {
        ((c as u32 + 32) as u8) as char
    } else {
        c
    }
}

/// Whether the chars of `s` from `i` on spell `word` up to ASCII case.
fn matches_at(s: &[char], i: usize, word: &[char]) -> (r: bool)
    requires
        i + word.len() <= s.len(),
    ensures
        r == eq_ignore_ascii_case(s@.subrange(i as int, i + word@.len()), word@),
{
    let mut j: usize = 0;
    while j < word.len()
        invariant
            j <= word@.len(),
            i + word.len() <= s.len(),
            forall|k: int| 0 <= k < j ==> ascii_lower(s@[i + k]) == ascii_lower(word@[k]),
        decreases word@.len() - j,
    {
        if lower(s[i + j]) != lower(word[j]) {
            proof {
                let t = s@.subrange(i as int, i + word@.len());
                assert(t[j as int] == s@[i + j]);
            }
            return false;
        }
        j = j + 1;
    }
    proof {
        let t = s@.subrange(i as int, i + word@.len());
        assert forall|k: int| 0 <= k < t.len() implies #[trigger] ascii_lower(t[k]) == ascii_lower(
            word@[k],
        ) by {
            assert(t[k] == s@[i + k]);
        }
    }
    true
}

/// Whether `word` is one of the tokens of `s`, up to ASCII case.
fn contains_token(s: &[char], word: &[char]) -> (r: bool)
    ensures
        r == has_token(s@, word@),
{
    if word.len() > s.len() {
        return false;
    }
    let last = s.len() - word.len();
    let mut i: usize = 0;
    loop
        invariant
            i <= last,
            last + word@.len() == s@.len(),
            forall|k: int|
                0 <= k < i ==> !((k == 0 || is_token_sep(s@[k - 1])) && (k + word@.len() == s@.len()
                    || is_token_sep(s@[k + word@.len()])) && #[trigger] eq_ignore_ascii_case(
                    s@.subrange(k, k + word@.len()),
                    word@,
                )),
        ensures
            forall|k: int|
                0 <= k <= last ==> !((k == 0 || is_token_sep(s@[k - 1])) && (k + word@.len()
                    == s@.len() || is_token_sep(s@[k + word@.len()])) && #[trigger] eq_ignore_ascii_case(
                    s@.subrange(k, k + word@.len()),
                    word@,
                )),
        decreases last - i,
    {
        let starts = i == 0 || s[i - 1] == ' ' || s[i - 1] == ',';
        let ends = i == last || s[i + word.len()] == ' ' || s[i + word.len()] == ',';
        if starts && ends && matches_at(s, i, word) {
            return true;
        }
        if i == last {
            break ;
        }
        i = i + 1;
    }
    false
}

/// What a request must carry to be upgraded to a WebSocket connection: HTTP/1.1
/// or later, an `Upgrade` token in `Connection`, `Upgrade: websocket` (both
/// up to ASCII case), `Sec-WebSocket-Version: 13`, and a `Sec-WebSocket-Key`.
pub open spec fn wants_websocket(http11_or_later: bool, m: HeaderMap) -> bool {
    &&& http11_or_later
    &&& header_text(m, seq!['c', 'o', 'n', 'n', 'e', 'c', 't', 'i', 'o', 'n']) matches Some(c)
        && has_token(c, seq!['U', 'p', 'g', 'r', 'a', 'd', 'e'])
    &&& header_text(m, seq!['u', 'p', 'g', 'r', 'a', 'd', 'e']) matches Some(u) && eq_ignore_ascii_case(
        u,
        seq!['w', 'e', 'b', 's', 'o', 'c', 'k', 'e', 't'],
    )
    &&& header_value_of(m, sec_websocket_version()) == Some(seq![49u8, 51])
    &&& header_value_of(m, sec_websocket_key()) is Some
}

/// The name of the header that carries the WebSocket protocol version.
pub open spec fn sec_websocket_version() -> Seq<char> {
    seq!['s', 'e', 'c', '-', 'w', 'e', 'b', 's', 'o', 'c', 'k', 'e', 't', '-', 'v', 'e', 'r', 's', 'i', 'o', 'n']
}

/// The name of the header that carries the WebSocket handshake key.
pub open spec fn sec_websocket_key() -> Seq<char> {
    seq!['s', 'e', 'c', '-', 'w', 'e', 'b', 's', 'o', 'c', 'k', 'e', 't', '-', 'k', 'e', 'y']
}

/// The first value of header `name`, as bytes.
pub open spec fn header_value_of(m: HeaderMap, name: Seq<char>) -> Option<Seq<u8>> {
    match header_key(name) {
        Some(k) => first_value(header_entries(m), k),
        None => None,
    }
}

/// Whether a request asks to be upgraded to a WebSocket connection; a request
/// that does not is served as plain HTTP.
pub fn is_websocket_request(http11_or_later: bool, headers: &HeaderMap) -> (r: bool)
    ensures
        r == wants_websocket(http11_or_later, *headers),
{
    proof {
        reveal_strlit("connection");
        reveal_strlit("Upgrade");
        reveal_strlit("upgrade");
        reveal_strlit("websocket");
        reveal_strlit("sec-websocket-version");
        reveal_strlit("sec-websocket-key");
        assert("connection"@ =~= seq!['c', 'o', 'n', 'n', 'e', 'c', 't', 'i', 'o', 'n']);
        assert("Upgrade"@ =~= seq!['U', 'p', 'g', 'r', 'a', 'd', 'e']);
        assert("upgrade"@ =~= seq!['u', 'p', 'g', 'r', 'a', 'd', 'e']);
        assert("websocket"@ =~= seq!['w', 'e', 'b', 's', 'o', 'c', 'k', 'e', 't']);
        assert("sec-websocket-version"@ =~= sec_websocket_version());
        assert("sec-websocket-key"@ =~= sec_websocket_key());
    }
    if !http11_or_later {
        return false;
    }
    let connection_ok = match get_header_in(headers, "connection") {
        Some(c) => contains_token(chars_of(c).as_slice(), chars_of("Upgrade").as_slice()),
        None => false,
    };
    if !connection_ok {
        return false;
    }
    let upgrade_ok = match get_header_in(headers, "upgrade") {
        Some(u) => {
            let uc = chars_of(u);
            let w = chars_of("websocket");
            uc.len() == w.len() && matches_at(uc.as_slice(), 0, w.as_slice())
        },
        None => false,
    };
    if !upgrade_ok {
        proof {
            let uu = header_text(*headers, seq!['u', 'p', 'g', 'r', 'a', 'd', 'e']);
            if uu is Some {
                assert(uu->0.subrange(0, uu->0.len() as int) =~= uu->0);
            }
        }
        return false;
    }
    proof {
        let uu = header_text(*headers, seq!['u', 'p', 'g', 'r', 'a', 'd', 'e']);
        assert(uu->0.subrange(0, uu->0.len() as int) =~= uu->0);
    }
    let version_ok = match header_first_value(headers, "sec-websocket-version") {
        Some(v) => v.len() == 2 && v[0] == 49 && v[1] == 51,
        None => false,
    };
    if !version_ok {
        return false;
    }
    let has_key = match header_first_value(headers, "sec-websocket-key") {
        Some(_) => true,
        None => false,
    };
    proof {
        if version_ok {
            let v = header_value_of(*headers, sec_websocket_version())->0;
            assert(v =~= seq![49u8, 51]);
        }
    }
    has_key
}

/// The `Connection` token is matched whatever its ASCII case: a text holding
/// `upgrade`, `Upgrade`, `UPGRADE` or any mix of cases as a token (between the
/// ends of the text, spaces and commas) has the token `Upgrade`.
pub proof fn lemma_upgrade_token_any_case(c: Seq<char>, i: int)
    requires
        0 <= i,
        i + 7 <= c.len(),
        i == 0 || c[i - 1] == ' ' || c[i - 1] == ',',
        i + 7 == c.len() || c[i + 7] == ' ' || c[i + 7] == ',',
        forall|k: int|
            0 <= k < 7 ==> #[trigger] c[i + k] == seq!['u', 'p', 'g', 'r', 'a', 'd', 'e'][k] || c[i
                + k] == seq!['U', 'P', 'G', 'R', 'A', 'D', 'E'][k],
    ensures
        has_token(c, seq!['U', 'p', 'g', 'r', 'a', 'd', 'e']),
{
    let w = seq!['U', 'p', 'g', 'r', 'a', 'd', 'e'];
    let t = c.subrange(i, i + 7);
    assert forall|k: int| 0 <= k < t.len() implies #[trigger] ascii_lower(t[k]) == ascii_lower(w[k]) by {
        assert(t[k] == c[i + k]);
        assert(c[i + k] == seq!['u', 'p', 'g', 'r', 'a', 'd', 'e'][k] || c[i + k] == seq![
            'U',
            'P',
            'G',
            'R',
            'A',
            'D',
            'E',
        ][k]);
        assert(k == 0 || k == 1 || k == 2 || k == 3 || k == 4 || k == 5 || k == 6);
    }
    assert(eq_ignore_ascii_case(t, w));
}

/// A request is upgraded whatever the case of the `Upgrade` token in its
/// `Connection` header (`Connection: upgrade`, as proxies send it, counts), when
/// it is HTTP/1.1 or later, says `Upgrade: websocket` (any case), carries
/// `Sec-WebSocket-Version: 13` and has a `Sec-WebSocket-Key`.
pub proof fn lemma_upgrade_request_any_case(m: HeaderMap, c: Seq<char>, i: int, u: Seq<char>)
    requires
        header_text(m, seq!['c', 'o', 'n', 'n', 'e', 'c', 't', 'i', 'o', 'n']) == Some(c),
        0 <= i,
        i + 7 <= c.len(),
        i == 0 || c[i - 1] == ' ' || c[i - 1] == ',',
        i + 7 == c.len() || c[i + 7] == ' ' || c[i + 7] == ',',
        forall|k: int|
            0 <= k < 7 ==> #[trigger] c[i + k] == seq!['u', 'p', 'g', 'r', 'a', 'd', 'e'][k] || c[i
                + k] == seq!['U', 'P', 'G', 'R', 'A', 'D', 'E'][k],
        header_text(m, seq!['u', 'p', 'g', 'r', 'a', 'd', 'e']) == Some(u),
        u.len() == 9,
        forall|k: int|
            0 <= k < 9 ==> #[trigger] u[k] == seq!['w', 'e', 'b', 's', 'o', 'c', 'k', 'e', 't'][k]
                || u[k] == seq!['W', 'E', 'B', 'S', 'O', 'C', 'K', 'E', 'T'][k],
        header_value_of(
            m,
            seq!['s', 'e', 'c', '-', 'w', 'e', 'b', 's', 'o', 'c', 'k', 'e', 't', '-', 'v', 'e', 'r', 's', 'i', 'o', 'n'],
        ) == Some(seq![49u8, 51]),
        header_value_of(
            m,
            seq!['s', 'e', 'c', '-', 'w', 'e', 'b', 's', 'o', 'c', 'k', 'e', 't', '-', 'k', 'e', 'y'],
        ) is Some,
    ensures
        wants_websocket(true, m),
{
    lemma_upgrade_token_any_case(c, i);
    let w = seq!['w', 'e', 'b', 's', 'o', 'c', 'k', 'e', 't'];
    assert forall|k: int| 0 <= k < u.len() implies #[trigger] ascii_lower(u[k]) == ascii_lower(w[k]) by {
        assert(u[k] == seq!['w', 'e', 'b', 's', 'o', 'c', 'k', 'e', 't'][k] || u[k] == seq![
            'W',
            'E',
            'B',
            'S',
            'O',
            'C',
            'K',
            'E',
            'T',
        ][k]);
        assert(k == 0 || k == 1 || k == 2 || k == 3 || k == 4 || k == 5 || k == 6 || k == 7 || k
            == 8);
    }
    assert(eq_ignore_ascii_case(u, w));
}

/// The first entry of a comma-separated list is the text up to its first comma,
/// or the whole text when it has no comma: it is a prefix of the text, holds no
/// comma, and ends the text or stands just before a comma.
pub proof fn lemma_before_comma(s: Seq<char>)
    ensures
        before_comma(s).len() <= s.len(),
        s.take(before_comma(s).len() as int) == before_comma(s),
        before_comma(s).len() == s.len() || s[before_comma(s).len() as int] == ',',
        forall|i: int| 0 <= i < before_comma(s).len() ==> #[trigger] before_comma(s)[i] != ',',
        (forall|i: int| 0 <= i < s.len() ==> #[trigger] s[i] != ',') ==> before_comma(s) == s,
{
    match crate::text::first_index(s, ',') {
        Some(i) => {
            let j0 = choose|j: int| 0 <= j < s.len() && s[j] == ',';
            lemma_first_of(s, ',', j0);
            assert(0 <= i < s.len() && s[i] == ',' && forall|l: int| 0 <= l < i ==> s[l] != ',');
            assert(s.take(i as int) =~= before_comma(s));
        },
        None => {
            assert(s.take(s.len() as int) =~= s);
            assert forall|i: int| 0 <= i < s.len() implies #[trigger] s[i] != ',' by {
                if s[i] == ',' {
                    assert(exists|j: int| 0 <= j < s.len() && s[j] == ',');
                }
            }
        },
    }
}

/// Where some position of `s` holds `c`, a first one does.
proof fn lemma_first_of(s: Seq<char>, c: char, i: int)
    requires
        0 <= i < s.len(),
        s[i] == c,
    ensures
        exists|m: int| 0 <= m < s.len() && s[m] == c && forall|l: int| 0 <= l < m ==> s[l] != c,
    decreases i,
{
    if exists|j: int| 0 <= j < i && s[j] == c {
        let j = choose|j: int| 0 <= j < i && s[j] == c;
        lemma_first_of(s, c, j);
    } else {
        assert(forall|l: int| 0 <= l < i ==> s[l] != c);
    }
}

/// Trimming leaves a text that neither starts nor ends with a space or tab as
/// it is.
pub proof fn lemma_trim_blank_plain(s: Seq<char>)
    requires
        s.len() == 0 || (s[0] != ' ' && s[0] != '\t' && s.last() != ' ' && s.last() != '\t'),
    ensures
        trim_blank(s) == s,
{
}

/// Whether `s[a..b]` is `t`, with only spaces and tabs of `s` around it, and
/// `t` neither starts nor ends with a space or tab.
pub open spec fn blank_cut(s: Seq<char>, a: int, b: int, t: Seq<char>) -> bool {
    &&& 0 <= a <= b <= s.len()
    &&& s.subrange(a, b) == t
    &&& forall|k: int| 0 <= k < a ==> #[trigger] s[k] == ' ' || s[k] == '\t'
    &&& forall|k: int| b <= k < s.len() ==> #[trigger] s[k] == ' ' || s[k] == '\t'
    &&& a < b ==> s[a] != ' ' && s[a] != '\t' && s[b - 1] != ' ' && s[b - 1] != '\t'
}

/// Where the trimmed text stands in `s`.
#[verifier::spinoff_prover]
proof fn lemma_trim_blank_bounds(s: Seq<char>) -> (ab: (int, int))
    ensures
        blank_cut(s, ab.0, ab.1, trim_blank(s)),
    decreases s.len(),
{
    if s.len() > 0 && (s[0] == ' ' || s[0] == '\t') {
        let t = s.drop_first();
        let (a, b) = lemma_trim_blank_bounds(t);
        assert(s.subrange(a + 1, b + 1) =~= t.subrange(a, b));
        assert forall|k: int| 0 <= k < a + 1 implies #[trigger] s[k] == ' ' || s[k] == '\t' by {
            if k > 0 {
                assert(s[k] == t[k - 1]);
            }
        }
        assert forall|k: int| b + 1 <= k < s.len() implies #[trigger] s[k] == ' ' || s[k] == '\t' by {
            assert(s[k] == t[k - 1]);
        }
        if a < b {
            assert(s[a + 1] == t[a] && s[b] == t[b - 1]);
        }
        (a + 1, b + 1)
    } else if s.len() > 0 && (s.last() == ' ' || s.last() == '\t') {
        let t = s.drop_last();
        let (a, b) = lemma_trim_blank_bounds(t);
        assert(s.subrange(a, b) =~= t.subrange(a, b));
        assert forall|k: int| 0 <= k < a implies #[trigger] s[k] == ' ' || s[k] == '\t' by {
            assert(s[k] == t[k]);
        }
        assert forall|k: int| b <= k < s.len() implies #[trigger] s[k] == ' ' || s[k] == '\t' by {
            if k < t.len() {
                assert(s[k] == t[k]);
            }
        }
        if a < b {
            assert(s[a] == t[a] && s[b - 1] == t[b - 1]);
        }
        (a, b)
    } else {
        assert(s.subrange(0, s.len() as int) =~= s);
        (0, s.len() as int)
    }
}

/// Trimming cuts only spaces and tabs, from both ends, until neither end is
/// one: the result is a stretch `s[a..b]` of the text with only spaces and tabs
/// around it, and it neither starts nor ends with a space or tab.
pub proof fn lemma_trim_blank_cuts_blanks(s: Seq<char>)
    ensures
        exists|a: int, b: int| #[trigger] blank_cut(s, a, b, trim_blank(s)),
{
    let (a, b) = lemma_trim_blank_bounds(s);
    assert(blank_cut(s, a, b, trim_blank(s)));
}

/// A single-entry `X-Forwarded-For` (a text without comma) gives its whole text,
/// trimmed, as the first candidate for the client's address.
pub proof fn lemma_forwarded_single(m: HeaderMap, t: Seq<char>)
    requires
        header_text(m, seq!['x', '-', 'f', 'o', 'r', 'w', 'a', 'r', 'd', 'e', 'd', '-', 'f', 'o', 'r'])
            == Some(t),
        forall|i: int| 0 <= i < t.len() ==> #[trigger] t[i] != ',',
    ensures
        real_ip_texts(m).0 == Some(trim_blank(t)),
{
    lemma_before_comma(t);
}

/// The name for the `Sec-WebSocket-Accept` value of a handshake key: the
/// base64 SHA-1 digest of the key and the WebSocket GUID.
pub uninterp spec fn accept_key_of(key: Seq<u8>) -> Seq<char>;

/// The `Sec-WebSocket-Accept` value that answers a handshake key.
///
/// Calls `tungstenite::handshake::derive_accept_key`; the contract claims that
/// its result depends on the key alone, as `accept_key_of` names it.
#[verifier::external_body]
fn derive_accept_key(key: &[u8]) -> (r: String)
    ensures
        r@ == accept_key_of(key@),
{
    tokio_tungstenite::tungstenite::handshake::derive_accept_key(key)
}

/// The `Sec-WebSocket-Accept` value for a request: derived from its
/// `Sec-WebSocket-Key`, when it has one.
pub fn websocket_accept(headers: &HeaderMap) -> (r: Option<String>)
    ensures
        match header_value_of(*headers, sec_websocket_key()) {
            Some(k) => r matches Some(s) && s@ == accept_key_of(k),
            None => r is None,
        },
{
    proof {
        reveal_strlit("sec-websocket-key");
        assert("sec-websocket-key"@ =~= sec_websocket_key());
    }
    match header_first_value(headers, "sec-websocket-key") {
        Some(k) => Some(derive_accept_key(k.as_slice())),
        None => None,
    }
}

} // verus!
