//! Forwarding-handler logic: the routing decision for one inbound request
//! (Host parsing, table lookup, upstream URI construction) and the
//! hop-by-hop header filtering applied on both legs of the relay.
use vstd::prelude::*;
use vstd::string::*;
use crate::app::{Mapping, MappingModel};
use crate::hosts::text::str_eq_str;

verus! {

/// ASCII lowercase folding of one character.
pub open spec fn lower_char(c: char) -> char {
    if c == 'A' {
        'a'
    } else if c == 'B' {
        'b'
    } else if c == 'C' {
        'c'
    } else if c == 'D' {
        'd'
    } else if c == 'E' {
        'e'
    } else if c == 'F' {
        'f'
    } else if c == 'G' {
        'g'
    } else if c == 'H' {
        'h'
    } else if c == 'I' {
        'i'
    } else if c == 'J' {
        'j'
    } else if c == 'K' {
        'k'
    } else if c == 'L' {
        'l'
    } else if c == 'M' {
        'm'
    } else if c == 'N' {
        'n'
    } else if c == 'O' {
        'o'
    } else if c == 'P' {
        'p'
    } else if c == 'Q' {
        'q'
    } else if c == 'R' {
        'r'
    } else if c == 'S' {
        's'
    } else if c == 'T' {
        't'
    } else if c == 'U' {
        'u'
    } else if c == 'V' {
        'v'
    } else if c == 'W' {
        'w'
    } else if c == 'X' {
        'x'
    } else if c == 'Y' {
        'y'
    } else if c == 'Z' {
        'z'
    } else {
        c
    }
}

/// ASCII lowercase folding of a string.
pub open spec fn lower_seq(s: Seq<char>) -> Seq<char> {
    s.map_values(|c: char| lower_char(c))
}

/// Append the lowercase folding of the character at `i` of `s`.
fn append_char_lower(out: &mut String, s: &str, i: usize)
    requires
        i < s@.len(),
        i < usize::MAX,
    ensures
        final(out)@ == old(out)@ + seq![lower_char(s@[i as int])],
{
    let c = s.get_char(i);
    if c == 'A' {
        out.append("a");
        proof {
            reveal_strlit("a");
            assert("a"@ =~= seq!['a']);
        }
    } else if c == 'B' {
        out.append("b");
        proof {
            reveal_strlit("b");
            assert("b"@ =~= seq!['b']);
        }
    } else if c == 'C' {
        out.append("c");
        proof {
            reveal_strlit("c");
            assert("c"@ =~= seq!['c']);
        }
    } else if c == 'D' {
        out.append("d");
        proof {
            reveal_strlit("d");
            assert("d"@ =~= seq!['d']);
        }
    } else if c == 'E' {
        out.append("e");
        proof {
            reveal_strlit("e");
            assert("e"@ =~= seq!['e']);
        }
    } else if c == 'F' {
        out.append("f");
        proof {
            reveal_strlit("f");
            assert("f"@ =~= seq!['f']);
        }
    } else if c == 'G' {
        out.append("g");
        proof {
            reveal_strlit("g");
            assert("g"@ =~= seq!['g']);
        }
    } else if c == 'H' {
        out.append("h");
        proof {
            reveal_strlit("h");
            assert("h"@ =~= seq!['h']);
        }
    } else if c == 'I' {
        out.append("i");
        proof {
            reveal_strlit("i");
            assert("i"@ =~= seq!['i']);
        }
    } else if c == 'J' {
        out.append("j");
        proof {
            reveal_strlit("j");
            assert("j"@ =~= seq!['j']);
        }
    } else if c == 'K' {
        out.append("k");
        proof {
            reveal_strlit("k");
            assert("k"@ =~= seq!['k']);
        }
    } else if c == 'L' {
        out.append("l");
        proof {
            reveal_strlit("l");
            assert("l"@ =~= seq!['l']);
        }
    } else if c == 'M' {
        out.append("m");
        proof {
            reveal_strlit("m");
            assert("m"@ =~= seq!['m']);
        }
    } else if c == 'N' {
        out.append("n");
        proof {
            reveal_strlit("n");
            assert("n"@ =~= seq!['n']);
        }
    } else if c == 'O' {
        out.append("o");
        proof {
            reveal_strlit("o");
            assert("o"@ =~= seq!['o']);
        }
    } else if c == 'P' {
        out.append("p");
        proof {
            reveal_strlit("p");
            assert("p"@ =~= seq!['p']);
        }
    } else if c == 'Q' {
        out.append("q");
        proof {
            reveal_strlit("q");
            assert("q"@ =~= seq!['q']);
        }
    } else if c == 'R' {
        out.append("r");
        proof {
            reveal_strlit("r");
            assert("r"@ =~= seq!['r']);
        }
    } else if c == 'S' {
        out.append("s");
        proof {
            reveal_strlit("s");
            assert("s"@ =~= seq!['s']);
        }
    } else if c == 'T' {
        out.append("t");
        proof {
            reveal_strlit("t");
            assert("t"@ =~= seq!['t']);
        }
    } else if c == 'U' {
        out.append("u");
        proof {
            reveal_strlit("u");
            assert("u"@ =~= seq!['u']);
        }
    } else if c == 'V' {
        out.append("v");
        proof {
            reveal_strlit("v");
            assert("v"@ =~= seq!['v']);
        }
    } else if c == 'W' {
        out.append("w");
        proof {
            reveal_strlit("w");
            assert("w"@ =~= seq!['w']);
        }
    } else if c == 'X' {
        out.append("x");
        proof {
            reveal_strlit("x");
            assert("x"@ =~= seq!['x']);
        }
    } else if c == 'Y' {
        out.append("y");
        proof {
            reveal_strlit("y");
            assert("y"@ =~= seq!['y']);
        }
    } else if c == 'Z' {
        out.append("z");
        proof {
            reveal_strlit("z");
            assert("z"@ =~= seq!['z']);
        }
    } else {
        let piece = s.substring_char(i, i + 1);
        out.append(piece);
        proof {
            assert(piece@ =~= seq![s@[i as int]]);
        }
    }
}

/// The ASCII-lowercase copy of a string.
pub fn to_ascii_lower(s: &str) -> (r: String)
    ensures
        r@ == lower_seq(s@),
{
    let n = s.unicode_len();
    let mut out = String::new();
    let mut i: usize = 0;
    proof {
        assert(out@ =~= lower_seq(s@.take(0)));
    }
    while i < n
        invariant
            n == s@.len(),
            0 <= i <= n,
            out@ == lower_seq(s@.take(i as int)),
        decreases n - i,
    {
        append_char_lower(&mut out, s, i);
        proof {
            assert(out@ =~= lower_seq(s@.take(i + 1)));
        }
        i = i + 1;
    }
    proof {
        assert(s@.take(n as int) =~= s@);
    }
    out
}

/// Length of the Host value before an optional `:port` suffix.
pub open spec fn host_part_len(h: Seq<char>) -> nat
    decreases h.len(),
{
    if h.len() == 0 || h[0] == ':' {
        0
    } else {
        1 + host_part_len(h.drop_first())
    }
}

/// The Host value with an optional `:port` suffix removed.
pub open spec fn strip_port_spec(h: Seq<char>) -> Seq<char> {
    h.take(host_part_len(h) as int)
}

pub proof fn lemma_host_part_props(h: Seq<char>)
    ensures
        host_part_len(h) <= h.len(),
        forall|i: int| 0 <= i < host_part_len(h) ==> h[i] != ':',
        host_part_len(h) < h.len() ==> h[host_part_len(h) as int] == ':',
    decreases h.len(),
{
    if h.len() == 0 || h[0] == ':' {
    } else {
        lemma_host_part_props(h.drop_first());
        assert forall|i: int| 0 <= i < host_part_len(h) implies h[i] != ':' by {
            if i > 0 {
                assert(h.drop_first()[i - 1] != ':');
            }
        }
    }
}

/// The lookup key for a Host header value: strip `:port`, lowercase.
pub open spec fn host_key_spec(h: Seq<char>) -> Seq<char> {
    lower_seq(strip_port_spec(h))
}

/// The character for one decimal digit.
pub open spec fn digit_char(d: int) -> char {
    if d == 0 {
        '0'
    } else if d == 1 {
        '1'
    } else if d == 2 {
        '2'
    } else if d == 3 {
        '3'
    } else if d == 4 {
        '4'
    } else if d == 5 {
        '5'
    } else if d == 6 {
        '6'
    } else if d == 7 {
        '7'
    } else if d == 8 {
        '8'
    } else {
        '9'
    }
}

pub open spec fn dec_digits(n: int) -> Seq<char>
    decreases n,
{
    if n < 10 {
        seq![digit_char(n)]
    } else {
        dec_digits(n / 10).push(digit_char(n % 10))
    }
}

fn digit_str(d: u16) -> (r: &'static str)
    requires
        d < 10,
    ensures
        r@ == seq![digit_char(d as int)],
{
    if d == 0 {
        proof {
            reveal_strlit("0");
            assert("0"@ =~= seq!['0']);
        }
        "0"
    } else if d == 1 {
        proof {
            reveal_strlit("1");
            assert("1"@ =~= seq!['1']);
        }
        "1"
    } else if d == 2 {
        proof {
            reveal_strlit("2");
            assert("2"@ =~= seq!['2']);
        }
        "2"
    } else if d == 3 {
        proof {
            reveal_strlit("3");
            assert("3"@ =~= seq!['3']);
        }
        "3"
    } else if d == 4 {
        proof {
            reveal_strlit("4");
            assert("4"@ =~= seq!['4']);
        }
        "4"
    } else if d == 5 {
        proof {
            reveal_strlit("5");
            assert("5"@ =~= seq!['5']);
        }
        "5"
    } else if d == 6 {
        proof {
            reveal_strlit("6");
            assert("6"@ =~= seq!['6']);
        }
        "6"
    } else if d == 7 {
        proof {
            reveal_strlit("7");
            assert("7"@ =~= seq!['7']);
        }
        "7"
    } else if d == 8 {
        proof {
            reveal_strlit("8");
            assert("8"@ =~= seq!['8']);
        }
        "8"
    } else if d == 9 {
        proof {
            reveal_strlit("9");
            assert("9"@ =~= seq!['9']);
        }
        "9"
    } else {
        proof {
            assert(false);
        }
        "9"
    }
}

/// The decimal text of a port number.
pub fn u16_to_string(n: u16) -> (r: String)
    ensures
        r@ == dec_digits(n as int),
    decreases n,
{
    if n < 10 {
        digit_str(n).to_owned()
    } else {
        let mut s = u16_to_string(n / 10);
        s.append(digit_str(n % 10));
        proof {
            assert(s@ =~= dec_digits(n as int));
        }
        s
    }
}


/// A header as a plain name/value pair, as relayed between the two legs.
#[derive(Debug, Clone, PartialEq)]
pub struct Header {
    pub name: String,
    pub value: String,
}

/// Mathematical model of a `Header`.
pub struct HeaderModel {
    pub name: Seq<char>,
    pub value: Seq<char>,
}

impl View for Header {
    type V = HeaderModel;

    open spec fn view(&self) -> HeaderModel {
        HeaderModel { name: self.name@, value: self.value@ }
    }
}

impl DeepView for Header {
    type V = HeaderModel;

    open spec fn deep_view(&self) -> HeaderModel {
        self.view()
    }
}

/// The hop-by-hop header names that must not be forwarded between hops.
pub open spec fn hop_names() -> Seq<Seq<char>> {
    seq![
        "connection"@,
        "keep-alive"@,
        "proxy-authenticate"@,
        "proxy-authorization"@,
        "te"@,
        "trailers"@,
        "transfer-encoding"@,
        "upgrade"@,
    ]
}

/// A name is hop-by-hop when its lowercase folding is on the fixed list.
pub open spec fn is_hop_header(name: Seq<char>) -> bool {
    hop_names().contains(lower_seq(name))
}

pub proof fn lemma_hop_names_cases(x: Seq<char>)
    ensures
        hop_names().contains(x) <==> (x == "connection"@ || x == "keep-alive"@
            || x == "proxy-authenticate"@ || x == "proxy-authorization"@ || x == "te"@
            || x == "trailers"@ || x == "transfer-encoding"@ || x == "upgrade"@),
{
    if hop_names().contains(x) {
        let w = choose|w: int| 0 <= w < hop_names().len() && hop_names()[w] == x;
        assert(hop_names()[w] == x);
    }
    if x == "connection"@ {
        assert(hop_names()[0] == x);
    } else if x == "keep-alive"@ {
        assert(hop_names()[1] == x);
    } else if x == "proxy-authenticate"@ {
        assert(hop_names()[2] == x);
    } else if x == "proxy-authorization"@ {
        assert(hop_names()[3] == x);
    } else if x == "te"@ {
        assert(hop_names()[4] == x);
    } else if x == "trailers"@ {
        assert(hop_names()[5] == x);
    } else if x == "transfer-encoding"@ {
        assert(hop_names()[6] == x);
    } else if x == "upgrade"@ {
        assert(hop_names()[7] == x);
    }
}

/// Whether a header name, compared case-insensitively, is hop-by-hop.
pub fn is_hop_by_hop(name: &str) -> (r: bool)
    ensures
        r == is_hop_header(name@),
{
    let lowered = to_ascii_lower(name);
    let r = str_eq_str(lowered.as_str(), "connection") || str_eq_str(lowered.as_str(), "keep-alive")
        || str_eq_str(lowered.as_str(), "proxy-authenticate") || str_eq_str(
        lowered.as_str(),
        "proxy-authorization",
    ) || str_eq_str(lowered.as_str(), "te") || str_eq_str(lowered.as_str(), "trailers")
        || str_eq_str(lowered.as_str(), "transfer-encoding") || str_eq_str(
        lowered.as_str(),
        "upgrade",
    );
    proof {
        lemma_hop_names_cases(lowered@);
    }
    r
}

/// The headers kept by the relay: every hop-by-hop header is dropped and
/// the rest stay in order.
pub open spec fn keep_headers(hs: Seq<HeaderModel>) -> Seq<HeaderModel>
    decreases hs.len(),
{
    if hs.len() == 0 {
        hs
    } else {
        let rest = keep_headers(hs.drop_last());
        if is_hop_header(hs.last().name) {
            rest
        } else {
            rest.push(hs.last())
        }
    }
}

/// No header that survives the filter is hop-by-hop, whatever came in.
pub proof fn lemma_kept_headers_not_hop(hs: Seq<HeaderModel>)
    ensures
        forall|j: int|
            0 <= j < keep_headers(hs).len() ==> !is_hop_header(#[trigger] keep_headers(hs)[j].name),
    decreases hs.len(),
{
    if hs.len() > 0 {
        lemma_kept_headers_not_hop(hs.drop_last());
        let rest = keep_headers(hs.drop_last());
        assert forall|j: int| 0 <= j < keep_headers(hs).len() implies !is_hop_header(
            #[trigger] keep_headers(hs)[j].name,
        ) by {
            if j < rest.len() {
                assert(keep_headers(hs)[j] == rest[j]);
            } else {
                assert(keep_headers(hs)[j] == hs.last());
            }
        }
    }
}

fn clone_header(h: &Header) -> (r: Header)
    ensures
        r@ == h@,
{
    Header { name: h.name.clone(), value: h.value.clone() }
}

/// Copy headers, dropping the hop-by-hop block-list case-insensitively;
/// applied to the request on the way upstream and to the response on the
/// way back.
pub fn filter_hop_headers(headers: &Vec<Header>) -> (r: Vec<Header>)
    ensures
        r.deep_view() == keep_headers(headers.deep_view()),
{
    let mut r: Vec<Header> = Vec::new();
    let mut i: usize = 0;
    proof {
        assert(headers.deep_view().take(0) =~= Seq::<HeaderModel>::empty());
        assert(r.deep_view() =~= keep_headers(headers.deep_view().take(0)));
    }
    while i < headers.len()
        invariant
            0 <= i <= headers.len(),
            r.deep_view() == keep_headers(headers.deep_view().take(i as int)),
        decreases headers.len() - i,
    {
        let ghost dv = headers.deep_view();
        let ghost kept0 = r.deep_view();
        proof {
            assert(dv.take(i + 1) =~= dv.take(i as int).push(dv[i as int]));
            assert(dv.take(i + 1).drop_last() =~= dv.take(i as int));
            assert(dv.take(i + 1).last() == dv[i as int]);
        }
        if !is_hop_by_hop(headers[i].name.as_str()) {
            r.push(clone_header(&headers[i]));
            proof {
                assert(r.deep_view() =~= kept0.push(dv[i as int]));
            }
        }
        i = i + 1;
    }
    proof {
        assert(headers.deep_view().take(headers.len() as int) =~= headers.deep_view());
    }
    r
}

/// The port of the first mapping with this exact domain.
pub open spec fn lookup_spec(t: Seq<MappingModel>, key: Seq<char>) -> Option<u16>
    decreases t.len(),
{
    if t.len() == 0 {
        None
    } else if t[0].domain == key {
        Some(t[0].port)
    } else {
        lookup_spec(t.drop_first(), key)
    }
}

pub proof fn lemma_lookup_at(t: Seq<MappingModel>, key: Seq<char>, k: int)
    requires
        0 <= k < t.len(),
        t[k].domain == key,
        forall|i: int| 0 <= i < k ==> (#[trigger] t[i]).domain != key,
    ensures
        lookup_spec(t, key) == Some(t[k].port),
    decreases k,
{
    if k > 0 {
        assert(t[0].domain != key);
        assert forall|i: int| 0 <= i < k - 1 implies (#[trigger] t.drop_first()[i]).domain
            != key by {
            assert(t.drop_first()[i] == t[i + 1]);
        }
        assert(t.drop_first()[k - 1] == t[k]);
        lemma_lookup_at(t.drop_first(), key, k - 1);
    }
}

pub proof fn lemma_lookup_none(t: Seq<MappingModel>, key: Seq<char>)
    requires
        forall|i: int| 0 <= i < t.len() ==> (#[trigger] t[i]).domain != key,
    ensures
        lookup_spec(t, key) is None,
    decreases t.len(),
{
    if t.len() > 0 {
        assert forall|i: int| 0 <= i < t.drop_first().len() implies (
        #[trigger] t.drop_first()[i]).domain != key by {
            assert(t.drop_first()[i] == t[i + 1]);
        }
        lemma_lookup_none(t.drop_first(), key);
    }
}

/// Exact-match lookup of a key against the routing-table snapshot.
pub fn lookup_port(table: &Vec<Mapping>, key: &str) -> (r: Option<u16>)
    ensures
        r == lookup_spec(table.deep_view(), key@),
{
    let n = table.len();
    let mut i: usize = 0;
    while i < n
        invariant
            n == table.len(),
            0 <= i <= n,
            forall|j: int| 0 <= j < i ==> (#[trigger] table.deep_view()[j]).domain != key@,
        decreases n - i,
    {
        if str_eq_str(table[i].domain.as_str(), key) {
            proof {
                lemma_lookup_at(table.deep_view(), key@, i as int);
            }
            return Some(table[i].port);
        }
        i = i + 1;
    }
    proof {
        lemma_lookup_none(table.deep_view(), key@);
    }
    None
}

/// The upstream request URI: localhost at the mapped port, keeping the
/// original path and query, with `/` standing in when there is none.
pub open spec fn upstream_uri(port: u16, pq: Option<Seq<char>>) -> Seq<char> {
    "http://127.0.0.1:"@ + dec_digits(port as int) + (match pq {
        Some(p) => p,
        None => "/"@,
    })
}

/// What the handler decides for one inbound request.
#[derive(Debug, Clone, PartialEq)]
pub enum RouteDecision {
    /// No Host header: answer 400 without forwarding.
    MissingHost,
    /// No mapping for this lookup key: answer 404 naming it.
    NoMapping(String),
    /// Forward to this port at this URI.
    Forward { port: u16, uri: String },
}

/// Mathematical model of a `RouteDecision`.
pub enum RouteModel {
    MissingHost,
    NoMapping(Seq<char>),
    Forward { port: u16, uri: Seq<char> },
}

impl View for RouteDecision {
    type V = RouteModel;

    open spec fn view(&self) -> RouteModel {
        match self {
            RouteDecision::MissingHost => RouteModel::MissingHost,
            RouteDecision::NoMapping(k) => RouteModel::NoMapping(k@),
            RouteDecision::Forward { port, uri } => RouteModel::Forward {
                port: *port,
                uri: uri@,
            },
        }
    }
}

/// The routing decision: no Host is refused; otherwise the key (Host
/// without `:port`, lowercased) is looked up exactly, and a hit forwards to
/// 127.0.0.1 at the mapped port with the original path and query.
pub open spec fn route_spec(
    host: Option<Seq<char>>,
    pq: Option<Seq<char>>,
    t: Seq<MappingModel>,
) -> RouteModel {
    match host {
        None => RouteModel::MissingHost,
        Some(h) => {
            let key = host_key_spec(h);
            match lookup_spec(t, key) {
                None => RouteModel::NoMapping(key),
                Some(p) => RouteModel::Forward { port: p, uri: upstream_uri(p, pq) },
            }
        },
    }
}

/// Decide how to handle one request from its Host header, its path and
/// query, and the current routing-table snapshot. The URI handed back is
/// what the upstream client is pointed at; relaying the method, body and
/// filtered headers is the caller's part.
pub fn route_request(
    host: Option<&str>,
    path_and_query: Option<&str>,
    table: &Vec<Mapping>,
) -> (r: RouteDecision)
    ensures
        r@ == route_spec(
            match host {
                Some(h) => Some(h@),
                None => None,
            },
            match path_and_query {
                Some(p) => Some(p@),
                None => None,
            },
            table.deep_view(),
        ),
{
    match host {
        None => RouteDecision::MissingHost,
        Some(h) => {
            let n = h.unicode_len();
            let mut i: usize = 0;
            while i < n && h.get_char(i) != ':'
                invariant
                    n == h@.len(),
                    0 <= i <= n,
                    forall|k: int| 0 <= k < i ==> h@[k] != ':',
                decreases n - i,
            {
                i = i + 1;
            }
            proof {
                lemma_host_part_props(h@);
                if i < n {
                    assert(host_part_len(h@) == i);
                } else {
                    assert(host_part_len(h@) == n);
                }
            }
            let stripped = h.substring_char(0, i);
            proof {
                assert(stripped@ =~= strip_port_spec(h@));
            }
            let key = to_ascii_lower(stripped);
            match lookup_port(table, key.as_str()) {
                None => RouteDecision::NoMapping(key),
                Some(port) => {
                    let mut uri = "http://127.0.0.1:".to_owned();
                    let port_text = u16_to_string(port);
                    uri.append(port_text.as_str());
                    match path_and_query {
                        Some(p) => uri.append(p),
                        None => uri.append("/"),
                    }
                    RouteDecision::Forward { port, uri }
                },
            }
        },
    }
}

} // verus!
