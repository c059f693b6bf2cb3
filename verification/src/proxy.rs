//! The filtering HTTP proxy: domain whitelist matching, request parsing, the
//! decision taken for each incoming request and the bytes written back.
use vstd::prelude::*;
use vstd::string::*;

use crate::text::{
    chars_of, concat_chars, copy_range, decimal, decimal_exec, ends_with, ends_with_chars,
    eq_ignore_ascii_case, eq_ignore_case_chars, find_char, first_line, first_line_exec,
    first_words, has_char, has_char_exec, same_chars, lemma_no_char_prefix_before, lemma_prefix_before_at,
    lines, lines_exec, prefix_before, prefix_before_exec, starts_with, starts_with_chars,
    string_of, strip_prefix_all, strip_prefix_all_exec, trim, trim_exec, words, is_ascii_text,
    lower_ascii,
};
use crate::unicode::{
    spec_to_lowercase, spec_to_uppercase, spec_utf8_lossy, to_lowercase, to_uppercase, utf8_lossy,
};

verus! {

/// The port on which the local filtering proxy listens.
pub const PROXY_PORT: u16 = 18080;

/// A record of one request that the proxy saw, for the user interface.
pub struct ProxyEvent {
    pub domain: String,
    pub action: String,
    pub allowed: bool,
}

/// The model of a `ProxyEvent`.
pub struct EventView {
    pub domain: Seq<char>,
    pub action: Seq<char>,
    pub allowed: bool,
}

impl View for ProxyEvent {
    type V = EventView;

    open spec fn view(&self) -> EventView {
        EventView { domain: self.domain@, action: self.action@, allowed: self.allowed }
    }
}

/// The request methods that the proxy forwards; any other method is sent as GET.
#[derive(Clone, Copy, PartialEq, Eq, Structural, Debug)]
pub enum HttpMethod {
    Get,
    Post,
    Put,
    Delete,
    Patch,
    Head,
}

/// What the proxy does with a connection after reading its first request.
pub enum ConnectionAction {
    /// Close the connection without an answer.
    Close,
    /// Answer with `blocked_response(domain)` and close.
    Block { domain: String },
    /// Connect to `host_port`, answer `tunnel_established_response()`, and
    /// relay bytes both ways; answer `bad_gateway_response()` when the
    /// connection fails.
    Tunnel { host_port: String },
    /// Send the request to `url` with this method and these headers, and
    /// answer with `format_http_response` of the reply, or with
    /// `bad_gateway_response()` when that fails.
    Forward { url: String, method: HttpMethod, headers: Vec<(String, String)> },
    /// Answer `bad_request_response()` and close.
    BadRequest,
}

/// The model of a `ConnectionAction`.
pub enum ActionView {
    Close,
    Block(Seq<char>),
    Tunnel(Seq<char>),
    Forward(Seq<char>, HttpMethod, Seq<(Seq<char>, Seq<char>)>),
    BadRequest,
}

pub open spec fn pair_views(v: Seq<(String, String)>) -> Seq<(Seq<char>, Seq<char>)> {
    v.map_values(|p: (String, String)| (p.0@, p.1@))
}

impl View for ConnectionAction {
    type V = ActionView;

    open spec fn view(&self) -> ActionView {
        match self {
            ConnectionAction::Close => ActionView::Close,
            ConnectionAction::Block { domain } => ActionView::Block(domain@),
            ConnectionAction::Tunnel { host_port } => ActionView::Tunnel(host_port@),
            ConnectionAction::Forward { url, method, headers } => ActionView::Forward(
                url@,
                *method,
                pair_views(headers@),
            ),
            ConnectionAction::BadRequest => ActionView::BadRequest,
        }
    }
}

/// The event to report (if any) and the action to take for one request.
pub struct RequestPlan {
    pub event: Option<ProxyEvent>,
    pub action: ConnectionAction,
}

pub open spec fn event_view(e: Option<ProxyEvent>) -> Option<EventView> {
    match e {
        Some(ev) => Some(ev@),
        None => None,
    }
}

impl View for RequestPlan {
    type V = (Option<EventView>, ActionView);

    open spec fn view(&self) -> (Option<EventView>, ActionView) {
        (event_view(self.event), self.action@)
    }
}

pub open spec fn string_views(v: Seq<String>) -> Seq<Seq<char>> {
    v.map_values(|s: String| s@)
}

// ── Domain matching ─────────────────────────────────────────────────────────

/// The host without a port: the text before the first `:`.
pub open spec fn host_name(host: Seq<char>) -> Seq<char> {
    prefix_before(host, ':')
}

/// The domain of a whitelist entry: without any leading `http://`, then
/// without any leading `https://`, and without a path.
pub open spec fn entry_domain(entry: Seq<char>) -> Seq<char> {
    prefix_before(strip_prefix_all(strip_prefix_all(entry, "http://"@), "https://"@), '/')
}

/// `host` is `domain` or a subdomain of it.
pub open spec fn matches_domain(host: Seq<char>, domain: Seq<char>) -> bool {
    host == domain || ends_with(host, seq!['.'] + domain)
}

/// Whether an already lower-cased host passes an already lower-cased whitelist.
pub open spec fn domain_allowed_spec(host: Seq<char>, whitelist: Seq<Seq<char>>) -> bool {
    exists|i: int|
        0 <= i < whitelist.len() && matches_domain(
            host_name(host),
            entry_domain(#[trigger] whitelist[i]),
        )
}

/// Whether `host` passes the whitelist, both compared in lower case.
pub open spec fn is_allowed_spec(host: Seq<char>, whitelist: Seq<Seq<char>>) -> bool {
    domain_allowed_spec(
        spec_to_lowercase(host),
        whitelist.map_values(|e: Seq<char>| spec_to_lowercase(e)),
    )
}

fn entry_domain_exec(entry: &[char]) -> (res: Vec<char>)
    ensures
        res@ == entry_domain(entry@),
{
    let http = chars_of("http://");
    let https = chars_of("https://");
    proof {
        reveal_strlit("http://");
        reveal_strlit("https://");
    }
    let a = strip_prefix_all_exec(entry, &http);
    let b = strip_prefix_all_exec(&a, &https);
    prefix_before_exec(&b, '/')
}

fn matches_domain_exec(host: &[char], domain: &[char]) -> (res: bool)
    ensures
        res == matches_domain(host@, domain@),
{
    let same = host.len() == domain.len() && starts_with_chars(host, domain);
    proof {
        assert(host@.take(host@.len() as int) =~= host@);
    }
    if same {
        return true;
    }
    let dotted = concat_chars(&['.'], domain);
    assert(seq!['.'] =~= ['.']@);
    ends_with_chars(host, &dotted)
}

/// Checks an already lower-cased host (a port may follow a `:`) against an
/// already lower-cased whitelist: the host must equal an entry's domain or
/// be a subdomain of it.
pub fn domain_allowed(host: &str, whitelist: &[String]) -> (res: bool)
    ensures
        res == domain_allowed_spec(host@, string_views(whitelist@)),
{
    let name = prefix_before_exec(&chars_of(host), ':');
    let mut i: usize = 0;
    while i < whitelist.len()
        invariant
            i <= whitelist.len(),
            name@ == host_name(host@),
            forall|j: int|
                0 <= j < i ==> !matches_domain(
                    host_name(host@),
                    entry_domain(#[trigger] string_views(whitelist@)[j]),
                ),
        decreases whitelist.len() - i,
    {
        let d = entry_domain_exec(&chars_of(whitelist[i].as_str()));
        if matches_domain_exec(&name, &d) {
            assert(string_views(whitelist@)[i as int] == whitelist@[i as int]@);
            return true;
        }
        i += 1;
    }
    false
}

/// Checks a domain (or subdomain) against the whitelist, ignoring case, a
/// port after the host, and a scheme or path in the entries:
/// "wikipedia.org" also admits "en.wikipedia.org".
pub fn is_allowed(host: &str, whitelist: &[String]) -> (res: bool)
    ensures
        res == is_allowed_spec(host@, string_views(whitelist@)),
        all_ascii(host@, string_views(whitelist@)) ==> res == domain_allowed_spec(
            lower_ascii(host@),
            string_views(whitelist@).map_values(|e: Seq<char>| lower_ascii(e)),
        ),
{
    let host_lc = to_lowercase(host);
    let name = prefix_before_exec(&chars_of(host_lc.as_str()), ':');
    let ghost sv = string_views(whitelist@);
    let ghost lw = sv.map_values(|e: Seq<char>| spec_to_lowercase(e));
    let ghost la = sv.map_values(|e: Seq<char>| lower_ascii(e));
    let ghost ascii = all_ascii(host@, sv);
    let mut i: usize = 0;
    while i < whitelist.len()
        invariant
            i <= whitelist.len(),
            sv == string_views(whitelist@),
            ascii == all_ascii(host@, sv),
            name@ == host_name(spec_to_lowercase(host@)),
            ascii ==> spec_to_lowercase(host@) == lower_ascii(host@),
            lw == sv.map_values(|e: Seq<char>| spec_to_lowercase(e)),
            la == sv.map_values(|e: Seq<char>| lower_ascii(e)),
            forall|j: int| 0 <= j < i ==> (ascii ==> #[trigger] lw[j] == la[j]),
            forall|j: int|
                0 <= j < i ==> !matches_domain(
                    host_name(spec_to_lowercase(host@)),
                    entry_domain(#[trigger] lw[j]),
                ),
        decreases whitelist.len() - i,
    {
        let e = to_lowercase(whitelist[i].as_str());
        let d = entry_domain_exec(&chars_of(e.as_str()));
        assert(lw[i as int] == e@);
        assert(sv[i as int] == whitelist@[i as int]@);
        proof {
            if ascii {
                assert(is_ascii_text(sv[i as int]));
            }
        }
        if matches_domain_exec(&name, &d) {
            proof {
                if ascii {
                    assert(matches_domain(host_name(lower_ascii(host@)), entry_domain(la[i as int])));
                }
            }
            return true;
        }
        i += 1;
    }
    proof {
        if ascii {
            assert forall|j: int| 0 <= j < la.len() implies !matches_domain(
                host_name(lower_ascii(host@)),
                entry_domain(#[trigger] la[j]),
            ) by {
                assert(lw[j] == la[j]);
            }
        }
    }
    false
}

/// The host and every whitelist entry are ASCII text.
pub open spec fn all_ascii(host: Seq<char>, whitelist: Seq<Seq<char>>) -> bool {
    is_ascii_text(host) && forall|j: int| 0 <= j < whitelist.len() ==> is_ascii_text(
        #[trigger] whitelist[j],
    )
}

// ── Laws of the whitelist ───────────────────────────────────────────────────

/// A plain domain entry lets exactly that domain through.
pub proof fn law_entry_allows_itself(d: Seq<char>, whitelist: Seq<Seq<char>>, k: int)
    requires
        0 <= k < whitelist.len(),
        whitelist[k] == d,
        !has_char(d, ':'),
        !has_char(d, '/'),
        !starts_with(d, "http://"@),
        !starts_with(d, "https://"@),
    ensures
        domain_allowed_spec(d, whitelist),
{
    lemma_plain_entry(d);
    lemma_no_char_prefix_before(d, ':');
    assert(matches_domain(host_name(d), entry_domain(whitelist[k])));
}

proof fn lemma_plain_entry(d: Seq<char>)
    requires
        !has_char(d, '/'),
        !starts_with(d, "http://"@),
        !starts_with(d, "https://"@),
    ensures
        entry_domain(d) == d,
{
    reveal_strlit("http://");
    reveal_strlit("https://");
    assert(strip_prefix_all(d, "http://"@) == d);
    assert(strip_prefix_all(d, "https://"@) == d);
    lemma_no_char_prefix_before(d, '/');
}

/// Every subdomain of a plain domain entry is let through as well.
pub proof fn law_subdomain_allowed(
    sub: Seq<char>,
    d: Seq<char>,
    whitelist: Seq<Seq<char>>,
    k: int,
)
    requires
        0 <= k < whitelist.len(),
        whitelist[k] == d,
        !has_char(sub, ':'),
        !has_char(d, ':'),
        !has_char(d, '/'),
        !starts_with(d, "http://"@),
        !starts_with(d, "https://"@),
    ensures
        domain_allowed_spec(sub + seq!['.'] + d, whitelist),
{
    let h = sub + seq!['.'] + d;
    lemma_plain_entry(d);
    assert(!has_char(h, ':')) by {
        if has_char(h, ':') {
            let i = choose|i: int| 0 <= i < h.len() && h[i] == ':';
            if i < sub.len() {
                assert(sub[i] == ':');
            } else if i > sub.len() {
                assert(d[i - sub.len() - 1] == ':');
            }
        }
    }
    lemma_no_char_prefix_before(h, ':');
    assert(h.skip(h.len() - (seq!['.'] + d).len()) =~= seq!['.'] + d);
    assert(matches_domain(host_name(h), entry_domain(whitelist[k])));
}

/// A name that merely ends with an entry's domain, without a `.` before it,
/// is not let through by that entry: `evilexample.com` is not a subdomain of
/// `example.com`.
pub proof fn law_lookalike_blocked(x: Seq<char>, d: Seq<char>)
    requires
        x.len() > 0,
        x.last() != '.',
        !has_char(x + d, ':'),
        !has_char(d, '/'),
        !starts_with(d, "http://"@),
        !starts_with(d, "https://"@),
    ensures
        !domain_allowed_spec(x + d, seq![d]),
{
    let h = x + d;
    lemma_plain_entry(d);
    lemma_no_char_prefix_before(h, ':');
    let w = seq![d];
    assert(w[0] == d);
    if domain_allowed_spec(h, w) {
        let i = choose|i: int| 0 <= i < w.len() && matches_domain(host_name(h), entry_domain(#[trigger] w[i]));
        assert(i == 0);
        assert(matches_domain(h, d));
        assert(h != d) by {
            assert(h.len() != d.len());
        }
        let t = seq!['.'] + d;
        assert(h.skip(h.len() - t.len()) == t);
        assert(h.skip(h.len() - t.len())[0] == h[x.len() - 1]);
        assert(h[x.len() - 1] == x.last());
    }
}

proof fn lemma_strip_once(p: Seq<char>, s: Seq<char>)
    requires
        p.len() > 0,
    ensures
        strip_prefix_all(p + s, p) == strip_prefix_all(s, p),
{
    assert((p + s).take(p.len() as int) =~= p);
    assert((p + s).skip(p.len() as int) =~= s);
}

/// A name followed by a path does not begin with `http://` or `https://`
/// when the name holds no `:` or `/`.
proof fn lemma_no_scheme(d: Seq<char>, rest: Seq<char>)
    requires
        !has_char(d, ':'),
        !has_char(d, '/'),
    ensures
        !starts_with(d + seq!['/'] + rest, "http://"@),
        !starts_with(d + seq!['/'] + rest, "https://"@),
{
    reveal_strlit("http://");
    reveal_strlit("https://");
    let x = d + seq!['/'] + rest;
    assert(x[d.len() as int] == '/');
    assert forall|i: int| 0 <= i < d.len() implies x[i] == d[i] by {}
    if starts_with(x, "http://"@) {
        if d.len() > 4 {
            assert(x.take(7)[4] == ':');
            assert(d[4] == ':');
        } else {
            assert(x.take(7)[d.len() as int] == '/');
        }
    }
    if starts_with(x, "https://"@) {
        if d.len() > 5 {
            assert(x.take(8)[5] == ':');
            assert(d[5] == ':');
        } else {
            assert(x.take(8)[d.len() as int] == '/');
        }
    }
}

/// A whitelist entry written with `http://` or `https://` and a path stands
/// for its domain alone.
pub proof fn law_scheme_and_path_ignored(d: Seq<char>, rest: Seq<char>)
    requires
        !has_char(d, ':'),
        !has_char(d, '/'),
    ensures
        entry_domain("https://"@ + d + seq!['/'] + rest) == d,
        entry_domain("http://"@ + d + seq!['/'] + rest) == d,
{
    reveal_strlit("http://");
    reveal_strlit("https://");
    let x = d + seq!['/'] + rest;
    lemma_no_scheme(d, rest);
    lemma_prefix_before_at(x, '/', d.len() as int);
    assert(x.take(d.len() as int) =~= d);
    assert("https://"@ + d + seq!['/'] + rest =~= "https://"@ + x);
    assert("http://"@ + d + seq!['/'] + rest =~= "http://"@ + x);
    // `https://...` does not begin with `http://`
    assert(!starts_with("https://"@ + x, "http://"@)) by {
        assert(("https://"@ + x).take(7)[4] != "http://"@[4]);
    }
    lemma_strip_once("https://"@, x);
    lemma_strip_once("http://"@, x);
    assert(strip_prefix_all(x, "http://"@) == x);
    assert(strip_prefix_all(x, "https://"@) == x);
}

/// A port after the host does not change the answer.
pub proof fn law_port_ignored(h: Seq<char>, port: Seq<char>, whitelist: Seq<Seq<char>>)
    requires
        !has_char(h, ':'),
    ensures
        domain_allowed_spec(h + seq![':'] + port, whitelist) == domain_allowed_spec(h, whitelist),
{
    let hp = h + seq![':'] + port;
    lemma_prefix_before_at(hp, ':', h.len() as int);
    assert(hp.take(h.len() as int) =~= h);
    lemma_no_char_prefix_before(h, ':');
}

/// Adding entries to the whitelist never blocks a host that was let through.
pub proof fn law_whitelist_monotone(
    h: Seq<char>,
    whitelist: Seq<Seq<char>>,
    more: Seq<Seq<char>>,
)
    requires
        domain_allowed_spec(h, whitelist),
    ensures
        domain_allowed_spec(h, whitelist + more),
{
    let i = choose|i: int|
        0 <= i < whitelist.len() && matches_domain(host_name(h), entry_domain(#[trigger] whitelist[i]));
    assert((whitelist + more)[i] == whitelist[i]);
}

/// An empty whitelist lets nothing through.
pub proof fn law_empty_whitelist_blocks(h: Seq<char>)
    ensures
        !domain_allowed_spec(h, Seq::empty()),
{
}

/// The check ignores case: hosts with the same lower-case form get the same answer.
pub proof fn law_case_insensitive(h1: Seq<char>, h2: Seq<char>, whitelist: Seq<Seq<char>>)
    requires
        spec_to_lowercase(h1) == spec_to_lowercase(h2),
    ensures
        is_allowed_spec(h1, whitelist) == is_allowed_spec(h2, whitelist),
{
}

// ── Request parsing ─────────────────────────────────────────────────────────

pub open spec fn opt_view(o: Option<String>) -> Option<Seq<char>> {
    match o {
        Some(s) => Some(s@),
        None => None,
    }
}

/// The target of a `CONNECT host:port HTTP/1.1` request line.
pub open spec fn connect_target(line: Seq<char>) -> Option<Seq<char>> {
    let w = words(line);
    if w.len() >= 2 && eq_ignore_ascii_case(w[0], "CONNECT"@) {
        Some(w[1])
    } else {
        None
    }
}

/// A header line whose name is `Host` in any case.
pub open spec fn is_host_line(line: Seq<char>) -> bool {
    line.len() >= 5 && eq_ignore_ascii_case(line.take(5), "host:"@)
}

/// The host named by the first `Host:` line, trimmed and without a port.
pub open spec fn host_from_lines(ls: Seq<Seq<char>>) -> Option<Seq<char>>
    decreases ls.len(),
{
    if ls.len() == 0 {
        None
    } else if is_host_line(ls[0]) {
        Some(prefix_before(trim(ls[0].skip(5)), ':'))
    } else {
        host_from_lines(ls.drop_first())
    }
}

/// The second word of a request line.
pub open spec fn request_url(line: Seq<char>) -> Option<Seq<char>> {
    if words(line).len() >= 2 {
        Some(words(line)[1])
    } else {
        None
    }
}

/// The first word of a request line, or `GET` when there is none.
pub open spec fn request_method(line: Seq<char>) -> Seq<char> {
    if words(line).len() >= 1 {
        words(line)[0]
    } else {
        "GET"@
    }
}

/// Parses `CONNECT example.com:443 HTTP/1.1` into `example.com:443`.
pub fn parse_connect_host(first_line: &str) -> (res: Option<String>)
    ensures
        opt_view(res) == connect_target(first_line@),
{
    let parts = first_words(&chars_of(first_line), 2);
    if parts.len() >= 2 && eq_ignore_case_chars(&parts[0], &chars_of("CONNECT")) {
        Some(string_of(&parts[1]))
    } else {
        None
    }
}

/// The value of the first `Host:` header line, trimmed and without a port.
/// The header name is matched without regard to ASCII case (no other
/// character lower-cases to one of `host:`).
pub fn parse_host_header(raw: &str) -> (res: Option<String>)
    ensures
        opt_view(res) == host_from_lines(lines(raw@)),
{
    let ls = lines_exec(&chars_of(raw));
    let ghost all = lines(raw@);
    let key = chars_of("host:");
    proof {
        reveal_strlit("host:");
        assert(all.skip(0) =~= all);
    }
    let mut i: usize = 0;
    while i < ls.len()
        invariant
            i <= ls@.len(),
            all == lines(raw@),
            ls@.len() == all.len(),
            forall|j: int| 0 <= j < ls@.len() ==> (#[trigger] ls@[j])@ == all[j],
            key@ == "host:"@,
            key@.len() == 5,
            host_from_lines(all) == host_from_lines(all.skip(i as int)),
        decreases ls.len() - i,
    {
        let line = &ls[i];
        assert(all.skip(i as int)[0] == line@);
        assert(all.skip(i as int).drop_first() =~= all.skip(i + 1));
        if line.len() >= 5 && eq_ignore_case_chars(&copy_range(line, 0, 5), &key) {
            assert(line@.subrange(0, 5) =~= line@.take(5));
            let value = trim_exec(&copy_range(line, 5, line.len()));
            assert(line@.subrange(5, line@.len() as int) =~= line@.skip(5));
            assert(is_host_line(line@));
            assert(host_from_lines(all.skip(i as int)) == Some(
                prefix_before(trim(line@.skip(5)), ':'),
            ));
            let found = string_of(&prefix_before_exec(&value, ':'));
            return Some(found);
        }
        proof {
            if line@.len() >= 5 {
                assert(line@.subrange(0, 5) =~= line@.take(5));
            }
        }
        i += 1;
    }
    None
}

/// Parses `GET http://example.com/path HTTP/1.1` into the URL.
pub fn parse_request_url(first_line: &str) -> (res: Option<String>)
    ensures
        opt_view(res) == request_url(first_line@),
{
    let parts = first_words(&chars_of(first_line), 2);
    if parts.len() >= 2 {
        Some(string_of(&parts[1]))
    } else {
        None
    }
}

/// The method of a request line, `GET` when the line is blank.
pub fn parse_method(first_line: &str) -> (res: String)
    ensures
        res@ == request_method(first_line@),
{
    let parts = first_words(&chars_of(first_line), 1);
    if parts.len() >= 1 {
        string_of(&parts[0])
    } else {
        "GET".to_owned()
    }
}

// ── Forwarding ──────────────────────────────────────────────────────────────

/// The method used to forward a request, chosen by the upper-case method name.
pub open spec fn method_kind(method: Seq<char>) -> HttpMethod {
    method_from_upper(spec_to_uppercase(method))
}

/// The method named by an upper-case method name (`POST`, `PUT`, `DELETE`,
/// `PATCH`, `HEAD`; everything else is `GET`).
pub open spec fn method_from_upper(u: Seq<char>) -> HttpMethod {
    if u == "POST"@ {
        HttpMethod::Post
    } else if u == "PUT"@ {
        HttpMethod::Put
    } else if u == "DELETE"@ {
        HttpMethod::Delete
    } else if u == "PATCH"@ {
        HttpMethod::Patch
    } else if u == "HEAD"@ {
        HttpMethod::Head
    } else {
        HttpMethod::Get
    }
}

/// Forwarding keeps the request's method for `POST`, `PUT`, `DELETE`,
/// `PATCH` and `HEAD`, each for exactly that upper-case name, and sends
/// every other method as `GET`.
pub proof fn law_forward_methods(u: Seq<char>)
    ensures
        method_from_upper(u) == HttpMethod::Post <==> u == "POST"@,
        method_from_upper(u) == HttpMethod::Put <==> u == "PUT"@,
        method_from_upper(u) == HttpMethod::Delete <==> u == "DELETE"@,
        method_from_upper(u) == HttpMethod::Patch <==> u == "PATCH"@,
        method_from_upper(u) == HttpMethod::Head <==> u == "HEAD"@,
        method_from_upper(u) == HttpMethod::Get <==> (u != "POST"@ && u != "PUT"@ && u != "DELETE"@
            && u != "PATCH"@ && u != "HEAD"@),
{
    reveal_strlit("POST");
    reveal_strlit("PUT");
    reveal_strlit("DELETE");
    reveal_strlit("PATCH");
    reveal_strlit("HEAD");
    assert("POST"@ != "PUT"@ && "POST"@ != "DELETE"@ && "POST"@ != "PATCH"@ && "POST"@ != "HEAD"@) by {
        assert("POST"@.len() != "PUT"@.len());
        assert("POST"@.len() != "DELETE"@.len());
        assert("POST"@.len() != "PATCH"@.len());
        assert("POST"@[0] != "HEAD"@[0]);
    }
    assert("PUT"@ != "DELETE"@ && "PUT"@ != "PATCH"@ && "PUT"@ != "HEAD"@) by {
        assert("PUT"@.len() != "DELETE"@.len());
        assert("PUT"@.len() != "PATCH"@.len());
        assert("PUT"@.len() != "HEAD"@.len());
    }
    assert("DELETE"@ != "PATCH"@ && "DELETE"@ != "HEAD"@) by {
        assert("DELETE"@.len() != "PATCH"@.len());
        assert("DELETE"@.len() != "HEAD"@.len());
    }
    assert("PATCH"@ != "HEAD"@) by {
        assert("PATCH"@.len() != "HEAD"@.len());
    }
}

/// The method for an already upper-cased method name.
pub fn method_kind_from_upper(upper: &str) -> (res: HttpMethod)
    ensures
        res == method_from_upper(upper@),
{
    let u = chars_of(upper);
    if same_chars(&u, &chars_of("POST")) {
        HttpMethod::Post
    } else if same_chars(&u, &chars_of("PUT")) {
        HttpMethod::Put
    } else if same_chars(&u, &chars_of("DELETE")) {
        HttpMethod::Delete
    } else if same_chars(&u, &chars_of("PATCH")) {
        HttpMethod::Patch
    } else if same_chars(&u, &chars_of("HEAD")) {
        HttpMethod::Head
    } else {
        HttpMethod::Get
    }
}

/// The method to forward a request with, chosen by its upper-case name.
pub fn method_kind_of(method: &str) -> (res: HttpMethod)
    ensures
        res == method_kind(method@),
{
    method_kind_from_upper(to_uppercase(method).as_str())
}

/// The name and value of a `name: value` header line, both trimmed.
pub open spec fn header_pair(line: Seq<char>) -> Option<(Seq<char>, Seq<char>)> {
    if has_char(line, ':') {
        let n = prefix_before(line, ':');
        Some((trim(n), trim(line.skip((n.len() + 1) as int))))
    } else {
        None
    }
}

/// Headers that belong to the connection to the proxy and are not forwarded.
pub open spec fn is_hop_header(name_lc: Seq<char>) -> bool {
    ||| name_lc == "host"@
    ||| name_lc == "proxy-connection"@
    ||| name_lc == "proxy-authorization"@
    ||| name_lc == "transfer-encoding"@
    ||| name_lc == "te"@
    ||| name_lc == "trailers"@
    ||| name_lc == "upgrade"@
    ||| name_lc == "connection"@
}

/// The headers forwarded from these header lines, in order.
pub open spec fn forwarded_from(ls: Seq<Seq<char>>) -> Seq<(Seq<char>, Seq<char>)>
    decreases ls.len(),
{
    if ls.len() == 0 {
        Seq::empty()
    } else {
        let prev = forwarded_from(ls.drop_last());
        match header_pair(ls.last()) {
            Some(p) => if is_hop_header(spec_to_lowercase(p.0)) {
                prev
            } else {
                prev.push(p)
            },
            None => prev,
        }
    }
}

/// The headers of a raw request (all lines after the first) that are forwarded.
pub open spec fn forwarded_headers_spec(raw: Seq<char>) -> Seq<(Seq<char>, Seq<char>)> {
    let ls = lines(raw);
    if ls.len() == 0 {
        Seq::empty()
    } else {
        forwarded_from(ls.skip(1))
    }
}

/// The headers of the connection to the proxy are dropped: each of these
/// eight names, in lower case, is a hop header.
pub proof fn law_proxy_connection_headers(name: Seq<char>)
    ensures
        is_hop_header("host"@),
        is_hop_header("proxy-connection"@),
        is_hop_header("proxy-authorization"@),
        is_hop_header("transfer-encoding"@),
        is_hop_header("te"@),
        is_hop_header("trailers"@),
        is_hop_header("upgrade"@),
        is_hop_header("connection"@),
        is_hop_header(name) ==> (name == "host"@ || name == "proxy-connection"@ || name
            == "proxy-authorization"@ || name == "transfer-encoding"@ || name == "te"@ || name
            == "trailers"@ || name == "upgrade"@ || name == "connection"@),
{
}

/// No forwarded header is one of the connection's own: whatever the request,
/// the lower case of every forwarded name is none of `host`,
/// `proxy-connection`, `proxy-authorization`, `transfer-encoding`, `te`,
/// `trailers`, `upgrade` and `connection`; every forwarded header is a
/// `name: value` line of the request, trimmed.
pub proof fn law_hop_headers_not_forwarded(raw: Seq<char>)
    ensures
        forall|i: int|
            0 <= i < forwarded_headers_spec(raw).len() ==> {
                let n = spec_to_lowercase((#[trigger] forwarded_headers_spec(raw)[i]).0);
                &&& n != "host"@
                &&& n != "proxy-connection"@
                &&& n != "proxy-authorization"@
                &&& n != "transfer-encoding"@
                &&& n != "te"@
                &&& n != "trailers"@
                &&& n != "upgrade"@
                &&& n != "connection"@
            },
        forall|i: int|
            0 <= i < forwarded_headers_spec(raw).len() ==> exists|k: int|
                1 <= k < lines(raw).len() && header_pair(lines(raw)[k]) == Some(
                    #[trigger] forwarded_headers_spec(raw)[i],
                ),
{
    let ls = lines(raw);
    if ls.len() > 0 {
        lemma_forwarded_from(ls.skip(1));
        let f = forwarded_headers_spec(raw);
        assert forall|i: int| 0 <= i < f.len() implies exists|k: int|
            1 <= k < lines(raw).len() && header_pair(lines(raw)[k]) == Some(#[trigger] f[i]) by {
            let k = choose|k: int| 0 <= k < ls.skip(1).len() && header_pair(ls.skip(1)[k]) == Some(f[i]);
            assert(ls.skip(1)[k] == ls[k + 1]);
        }
    }
}

proof fn lemma_forwarded_from(ls: Seq<Seq<char>>)
    ensures
        forall|i: int|
            0 <= i < forwarded_from(ls).len() ==> !is_hop_header(
                spec_to_lowercase((#[trigger] forwarded_from(ls)[i]).0),
            ),
        forall|i: int|
            0 <= i < forwarded_from(ls).len() ==> exists|k: int|
                0 <= k < ls.len() && header_pair(ls[k]) == Some(#[trigger] forwarded_from(ls)[i]),
    decreases ls.len(),
{
    if ls.len() > 0 {
        let r = ls.drop_last();
        lemma_forwarded_from(r);
        let prev = forwarded_from(r);
        let f = forwarded_from(ls);
        assert forall|i: int| 0 <= i < f.len() implies !is_hop_header(spec_to_lowercase((#[trigger] f[i]).0))
            && exists|k: int| 0 <= k < ls.len() && header_pair(ls[k]) == Some(f[i]) by {
            if i < prev.len() {
                assert(f[i] == prev[i]);
                let k = choose|k: int| 0 <= k < r.len() && header_pair(r[k]) == Some(prev[i]);
                assert(ls[k] == r[k]);
            } else {
                assert(header_pair(ls[ls.len() - 1]) == Some(f[i]));
            }
        }
    }
}

/// Whether a lower-case header name belongs to the connection to the proxy.
pub fn is_hop_header_name(name_lc: &[char]) -> (res: bool)
    ensures
        res == is_hop_header(name_lc@),
        res <==> (name_lc@ == "host"@ || name_lc@ == "proxy-connection"@ || name_lc@ == "proxy-authorization"@
            || name_lc@ == "transfer-encoding"@ || name_lc@ == "te"@ || name_lc@ == "trailers"@
            || name_lc@ == "upgrade"@ || name_lc@ == "connection"@),
{
    proof {
        law_proxy_connection_headers(name_lc@);
    }
    same_chars(name_lc, &chars_of("host")) || same_chars(name_lc, &chars_of("proxy-connection"))
        || same_chars(name_lc, &chars_of("proxy-authorization")) || same_chars(
        name_lc,
        &chars_of("transfer-encoding"),
    ) || same_chars(name_lc, &chars_of("te")) || same_chars(name_lc, &chars_of("trailers"))
        || same_chars(name_lc, &chars_of("upgrade")) || same_chars(
        name_lc,
        &chars_of("connection"),
    )
}

/// The `name: value` header lines after the request line, trimmed, without
/// the headers that belong to the proxy connection.
pub fn forwarded_headers(raw: &str) -> (res: Vec<(String, String)>)
    ensures
        pair_views(res@) == forwarded_headers_spec(raw@),
        forall|i: int|
            0 <= i < res@.len() ==> {
                let n = spec_to_lowercase((#[trigger] res@[i]).0@);
                &&& n != "host"@
                &&& n != "proxy-connection"@
                &&& n != "proxy-authorization"@
                &&& n != "transfer-encoding"@
                &&& n != "te"@
                &&& n != "trailers"@
                &&& n != "upgrade"@
                &&& n != "connection"@
            },
{
    proof {
        law_hop_headers_not_forwarded(raw@);
    }
    let ls = lines_exec(&chars_of(raw));
    let ghost all = lines(raw@);
    let mut out: Vec<(String, String)> = Vec::new();
    if ls.len() == 0 {
        assert(pair_views(out@) =~= Seq::<(Seq<char>, Seq<char>)>::empty());
        return out;
    }
    let ghost rest = all.skip(1);
    assert(rest.take(0) =~= Seq::<Seq<char>>::empty());
    let mut i: usize = 1;
    while i < ls.len()
        invariant
            1 <= i <= ls@.len(),
            all == lines(raw@),
            ls@.len() == all.len(),
            rest == all.skip(1),
            forall|j: int| 0 <= j < ls@.len() ==> (#[trigger] ls@[j])@ == all[j],
            pair_views(out@) == forwarded_from(rest.take(i - 1)),
        decreases ls.len() - i,
    {
        let line = &ls[i];
        let ghost pre = rest.take(i - 1);
        assert(rest.take(i as int).drop_last() =~= pre);
        assert(rest.take(i as int).last() == line@);
        let k = find_char(line, ':');
        if k < line.len() {
            assert(has_char(line@, ':'));
            let name = trim_exec(&copy_range(line, 0, k));
            let value = trim_exec(&copy_range(line, k + 1, line.len()));
            assert(line@.subrange(0, k as int) =~= line@.take(k as int));
            assert(line@.subrange(k + 1, line@.len() as int) =~= line@.skip(k + 1));
            let name_s = string_of(&name);
            let name_lc = chars_of(to_lowercase(name_s.as_str()).as_str());
            if !is_hop_header_name(&name_lc) {
                out.push((name_s, string_of(&value)));
                assert(pair_views(out@) =~= forwarded_from(pre).push((name@, value@)));
            }
        } else {
            proof {
                if has_char(line@, ':') {
                    let j = choose|j: int| 0 <= j < line@.len() && line@[j] == ':';
                    assert(line@[j] != ':');
                }
            }
        }
        i += 1;
    }
    assert(rest.take(ls.len() - 1) =~= rest);
    proof {
        let f = forwarded_headers_spec(raw@);
        assert forall|i: int| 0 <= i < out@.len() implies spec_to_lowercase((#[trigger] out@[i]).0@) == spec_to_lowercase(f[i].0) by {
            assert(pair_views(out@)[i] == (out@[i].0@, out@[i].1@));
        }
    }
    out
}

// ── Answers ─────────────────────────────────────────────────────────────────

/// The bytes of a string, UTF-8 encoded.
pub fn utf8_bytes(s: &str) -> (res: Vec<u8>)
    ensures
        res@ == vstd::utf8::encode_utf8(s@),
{
    vstd::slice::slice_to_vec(s.as_bytes())
}

/// The text shown to the user when a domain is blocked.
pub open spec fn blocked_body(domain: Seq<char>) -> Seq<char> {
    "CrabCage: '"@ + domain
        + "' ist nicht in deiner Erlaubnisliste.\nF\u{fc}ge diese Domain unter Berechtigungen \u{2192} Websites hinzu, um den Zugriff zu erlauben."@
}

/// The full `403 Forbidden` answer for a blocked domain.
pub open spec fn blocked_text(domain: Seq<char>) -> Seq<char> {
    let body = blocked_body(domain);
    "HTTP/1.1 403 Forbidden\r\nContent-Type: text/plain; charset=utf-8\r\nContent-Length: "@
        + decimal(vstd::utf8::encode_utf8(body).len()) + "\r\nX-CrabCage: blocked\r\n\r\n"@ + body
}

/// The blocked answer refuses with status 403, says it was blocked by the
/// proxy, and ends with a text that names the blocked domain in quotes.
pub proof fn law_blocked_answer(domain: Seq<char>)
    ensures
        starts_with(blocked_text(domain), "HTTP/1.1 403 Forbidden\r\n"@),
        ends_with(blocked_text(domain), blocked_body(domain)),
        blocked_body(domain).take(domain.len() + 12int) == "CrabCage: '"@ + domain + "'"@,
{
    reveal_strlit("HTTP/1.1 403 Forbidden\r\n");
    reveal_strlit("HTTP/1.1 403 Forbidden\r\nContent-Type: text/plain; charset=utf-8\r\nContent-Length: ");
    reveal_strlit("CrabCage: '");
    reveal_strlit("'");
    reveal_strlit(
        "' ist nicht in deiner Erlaubnisliste.\nF\u{fc}ge diese Domain unter Berechtigungen \u{2192} Websites hinzu, um den Zugriff zu erlauben.",
    );
    let body = blocked_body(domain);
    let t = blocked_text(domain);
    let head = "HTTP/1.1 403 Forbidden\r\nContent-Type: text/plain; charset=utf-8\r\nContent-Length: "@
        + decimal(vstd::utf8::encode_utf8(body).len()) + "\r\nX-CrabCage: blocked\r\n\r\n"@;
    assert(t =~= head + body);
    assert(t.take(24) =~= "HTTP/1.1 403 Forbidden\r\n"@);
    assert(t.skip(t.len() - body.len()) =~= body);
    assert(body.take(domain.len() + 12int) =~= "CrabCage: '"@ + domain + "'"@);
}

/// The `403 Forbidden` answer for a blocked domain, naming the domain.
pub fn blocked_response(domain: &str) -> (res: Vec<u8>)
    ensures
        res@ == vstd::utf8::encode_utf8(blocked_text(domain@)),
{
    let mut body = "CrabCage: '".to_owned();
    body.append(domain);
    body.append(
        "' ist nicht in deiner Erlaubnisliste.\nF\u{fc}ge diese Domain unter Berechtigungen \u{2192} Websites hinzu, um den Zugriff zu erlauben.",
    );
    let body_len = utf8_bytes(body.as_str()).len();
    let mut text = "HTTP/1.1 403 Forbidden\r\nContent-Type: text/plain; charset=utf-8\r\nContent-Length: ".to_owned();
    text.append(string_of(&decimal_exec(body_len)).as_str());
    text.append("\r\nX-CrabCage: blocked\r\n\r\n");
    text.append(body.as_str());
    utf8_bytes(text.as_str())
}

/// `HTTP/1.1 200 Connection Established`, sent when a tunnel is open.
pub fn tunnel_established_response() -> (res: Vec<u8>)
    ensures
        res@ == vstd::utf8::encode_utf8("HTTP/1.1 200 Connection Established\r\n\r\n"@),
{
    utf8_bytes("HTTP/1.1 200 Connection Established\r\n\r\n")
}

/// `HTTP/1.1 502 Bad Gateway`, sent when the target cannot be reached.
pub fn bad_gateway_response() -> (res: Vec<u8>)
    ensures
        res@ == vstd::utf8::encode_utf8("HTTP/1.1 502 Bad Gateway\r\n\r\n"@),
{
    utf8_bytes("HTTP/1.1 502 Bad Gateway\r\n\r\n")
}

/// `HTTP/1.1 400 Bad Request`, sent for a plain request without an absolute URL.
pub fn bad_request_response() -> (res: Vec<u8>)
    ensures
        res@ == vstd::utf8::encode_utf8("HTTP/1.1 400 Bad Request\r\n\r\n"@),
{
    utf8_bytes("HTTP/1.1 400 Bad Request\r\n\r\n")
}

/// The header lines `name: value\r\n` for the headers whose value is text.
pub open spec fn header_lines(hs: Seq<(Seq<char>, Option<Seq<char>>)>) -> Seq<char>
    decreases hs.len(),
{
    if hs.len() == 0 {
        Seq::empty()
    } else {
        let prev = header_lines(hs.drop_last());
        match hs.last().1 {
            Some(v) => prev + hs.last().0 + ": "@ + v + "\r\n"@,
            None => prev,
        }
    }
}

pub open spec fn opt_pair_views(v: Seq<(String, Option<String>)>) -> Seq<(Seq<char>, Option<Seq<char>>)> {
    v.map_values(|p: (String, Option<String>)| (p.0@, opt_view(p.1)))
}

/// The head of a relayed answer: status line, the headers, and the length of the body.
pub open spec fn response_head(
    status: u16,
    reason: Option<Seq<char>>,
    headers: Seq<(Seq<char>, Option<Seq<char>>)>,
    body_len: nat,
) -> Seq<char> {
    let r = match reason {
        Some(r) => r,
        None => Seq::empty(),
    };
    "HTTP/1.1 "@ + decimal(status as nat) + " "@ + r + "\r\n"@ + header_lines(headers)
        + "Content-Length: "@ + decimal(body_len) + "\r\n\r\n"@
}

/// A relayed answer begins with the status line `HTTP/1.1 <status> <reason>`
/// and its header block ends with the body's `Content-Length` and an empty
/// line.
pub proof fn law_relayed_head(
    status: u16,
    reason: Option<Seq<char>>,
    headers: Seq<(Seq<char>, Option<Seq<char>>)>,
    body_len: nat,
)
    ensures
        starts_with(response_head(status, reason, headers, body_len), "HTTP/1.1 "@ + decimal(status as nat) + " "@),
        ends_with(response_head(status, reason, headers, body_len), "Content-Length: "@ + decimal(body_len) + "\r\n\r\n"@),
{
    let r = match reason {
        Some(r) => r,
        None => Seq::<char>::empty(),
    };
    let h = response_head(status, reason, headers, body_len);
    let a = "HTTP/1.1 "@ + decimal(status as nat) + " "@;
    let b = "Content-Length: "@ + decimal(body_len) + "\r\n\r\n"@;
    let mid = r + "\r\n"@ + header_lines(headers);
    assert(h =~= a + mid + b);
    assert(h.take(a.len() as int) =~= a);
    assert(h.skip(h.len() - b.len()) =~= b);
}

/// The answer relayed to the client for a forwarded request: the status
/// line with its reason phrase, every header whose value is text (`None`
/// marks one that is not), a `Content-Length` of the body, and the body.
pub fn format_http_response(
    status: u16,
    reason: Option<String>,
    headers: &[(String, Option<String>)],
    body: &[u8],
) -> (res: Vec<u8>)
    ensures
        res@ == vstd::utf8::encode_utf8(
            response_head(status, opt_view(reason), opt_pair_views(headers@), body@.len()),
        ) + body@,
{
    let mut text = "HTTP/1.1 ".to_owned();
    text.append(string_of(&decimal_exec(status as usize)).as_str());
    text.append(" ");
    match &reason {
        Some(r) => text.append(r.as_str()),
        None => {},
    }
    text.append("\r\n");
    let ghost start = text@;
    let ghost hs = opt_pair_views(headers@);
    let mut i: usize = 0;
    assert(hs.take(0) =~= Seq::<(Seq<char>, Option<Seq<char>>)>::empty());
    assert(start + header_lines(hs.take(0)) =~= start);
    while i < headers.len()
        invariant
            i <= headers.len(),
            hs == opt_pair_views(headers@),
            text@ == start + header_lines(hs.take(i as int)),
        decreases headers.len() - i,
    {
        assert(hs.take(i + 1).drop_last() =~= hs.take(i as int));
        assert(hs.take(i + 1).last() == hs[i as int]);
        match &headers[i].1 {
            Some(v) => {
                text.append(headers[i].0.as_str());
                text.append(": ");
                text.append(v.as_str());
                text.append("\r\n");
                assert(text@ =~= start + header_lines(hs.take(i + 1)));
            },
            None => {},
        }
        i += 1;
    }
    assert(hs.take(headers.len() as int) =~= hs);
    text.append("Content-Length: ");
    text.append(string_of(&decimal_exec(body.len())).as_str());
    text.append("\r\n\r\n");
    let mut out = utf8_bytes(text.as_str());
    let ghost head = out@;
    let mut j: usize = 0;
    while j < body.len()
        invariant
            j <= body.len(),
            out@ == head + body@.take(j as int),
        decreases body.len() - j,
    {
        out.push(body[j]);
        j += 1;
        assert(out@ =~= head + body@.take(j as int));
    }
    assert(body@.take(body.len() as int) =~= body@);
    proof {
        let r = match opt_view(reason) {
            Some(r) => r,
            None => Seq::<char>::empty(),
        };
        assert(text@ =~= response_head(status, opt_view(reason), hs, body@.len()));
    }
    out
}

// ── Routing ─────────────────────────────────────────────────────────────────

/// Characters that end the authority part of a URL.
pub open spec fn ends_authority(c: char) -> bool {
    c == '/' || c == '?' || c == '#' || c == '\\'
}

/// The text up to the first character that ends the authority.
pub open spec fn authority(rest: Seq<char>) -> Seq<char>
    decreases rest.len(),
{
    if rest.len() == 0 || ends_authority(rest[0]) {
        Seq::empty()
    } else {
        seq![rest[0]] + authority(rest.drop_first())
    }
}

/// The text after `scheme://`, when the URL has that form.
pub open spec fn after_scheme(u: Seq<char>) -> Option<Seq<char>> {
    let scheme = prefix_before(u, ':');
    if scheme.len() < u.len() && starts_with(u.skip((scheme.len() + 1) as int), "//"@) {
        Some(u.skip((scheme.len() + 3) as int))
    } else {
        None
    }
}

/// The host an absolute URL is sent to: its authority without a port.
/// Some URLs name no host that can be checked here, because the URL parser
/// that sends the request would reach a host other than the text before the
/// first `:`: with user information (`@`) it goes to the host after the
/// `@`; percent-escapes (`%`) are decoded before the host is looked up; an
/// empty host makes it skip further slashes and take the host behind them;
/// and without `//` (`http:evil.com`) it still finds one. For those there
/// is no result, and the request is refused.
pub open spec fn url_host(u: Seq<char>) -> Option<Seq<char>> {
    match after_scheme(u) {
        Some(rest) => {
            let a = authority(rest);
            if has_char(a, '@') || has_char(a, '%') || prefix_before(a, ':').len() == 0 {
                None
            } else {
                Some(prefix_before(a, ':'))
            }
        },
        None => None,
    }
}

proof fn lemma_authority_at(s: Seq<char>, k: int)
    requires
        0 <= k <= s.len(),
        forall|i: int| 0 <= i < k ==> !ends_authority(s[i]),
        k < s.len() ==> ends_authority(s[k]),
    ensures
        authority(s) == s.take(k),
    decreases s.len(),
{
    if s.len() == 0 {
        assert(s.take(k) =~= s);
    } else if ends_authority(s[0]) {
        assert(k == 0);
        assert(s.take(k) =~= Seq::<char>::empty());
    } else {
        let r = s.drop_first();
        lemma_authority_at(r, k - 1);
        assert(s.take(k) =~= seq![s[0]] + r.take(k - 1));
    }
}

/// The host an absolute URL is sent to (see `url_host`).
pub fn parse_url_host(url: &str) -> (res: Option<String>)
    ensures
        opt_view(res) == url_host(url@),
{
    let u = chars_of(url);
    let k = find_char(&u, ':');
    let slashes = chars_of("//");
    if k >= u.len() {
        return None;
    }
    let rest = copy_range(&u, k + 1, u.len());
    assert(rest@ =~= u@.skip(k + 1));
    if !starts_with_chars(&rest, &slashes) {
        return None;
    }
    proof {
        reveal_strlit("//");
    }
    let mut e: usize = k + 3;
    assert(e <= u.len());
    while e < u.len() && !(u[e] == '/' || u[e] == '?' || u[e] == '#' || u[e] == '\\')
        invariant
            k + 3 <= e <= u@.len(),
            forall|i: int| k + 3 <= i < e ==> !ends_authority(u@[i]),
        decreases u.len() - e,
    {
        e += 1;
    }
    let a = copy_range(&u, k + 3, e);
    proof {
        let r = u@.skip(k + 3);
        assert forall|i: int| 0 <= i < e - (k + 3) implies !ends_authority(r[i]) by {
            assert(r[i] == u@[k + 3 + i]);
        }
        if e < u.len() {
            assert(r[e - (k + 3)] == u@[e as int]);
        }
        lemma_authority_at(r, e - (k + 3));
        assert(a@ =~= r.take(e - (k + 3)));
    }
    if has_char_exec(&a, '@') || has_char_exec(&a, '%') {
        return None;
    }
    let host = prefix_before_exec(&a, ':');
    if host.len() == 0 {
        return None;
    }
    Some(string_of(&host))
}

/// What the proxy does with a request whose first bytes decode to `text`.
/// A `CONNECT` request is judged by its target. A plain request with an
/// absolute `http` URL is judged by the host the URL names, since that is
/// where it would be sent, so that only admitted hosts are reached; when the
/// URL names no host that can be checked (see `url_host`) it is refused with
/// the blocked page naming the URL. Any other plain request is judged by its
/// `Host` header and can only be refused or answered as a bad request.
pub open spec fn route_spec(text: Seq<char>, whitelist: Seq<Seq<char>>) -> (
    Option<EventView>,
    ActionView,
) {
    let line = first_line(text);
    if starts_with(spec_to_uppercase(line), "CONNECT"@) {
        match connect_target(line) {
            None => (None, ActionView::Close),
            Some(hp) => {
                let host = prefix_before(hp, ':');
                let ok = is_allowed_spec(host, whitelist);
                (
                    Some(EventView { domain: host, action: "HTTPS"@, allowed: ok }),
                    if ok {
                        ActionView::Tunnel(hp)
                    } else {
                        ActionView::Block(host)
                    },
                )
            },
        }
    } else {
        let method = request_method(line);
        let action = "HTTP "@ + method;
        let absolute = match request_url(line) {
            Some(u) => starts_with(u, "http"@),
            None => false,
        };
        if absolute {
            let u = request_url(line)->0;
            match url_host(u) {
                Some(target) => {
                    let ok = is_allowed_spec(target, whitelist);
                    let ev = EventView { domain: target, action: action, allowed: ok };
                    if ok {
                        (
                            Some(ev),
                            ActionView::Forward(u, method_kind(method), forwarded_headers_spec(text)),
                        )
                    } else {
                        (Some(ev), ActionView::Block(target))
                    }
                },
                None => (
                    Some(EventView { domain: u, action: action, allowed: false }),
                    ActionView::Block(u),
                ),
            }
        } else {
            let host = match host_from_lines(lines(text)) {
                Some(h) => h,
                None => Seq::empty(),
            };
            let ok = is_allowed_spec(host, whitelist);
            let ev = EventView { domain: host, action: action, allowed: ok };
            if ok {
                (Some(ev), ActionView::BadRequest)
            } else {
                (Some(ev), ActionView::Block(host))
            }
        }
    }
}

/// Traffic reaches only hosts that the whitelist admits: a tunnel goes to
/// an admitted `CONNECT` target, and a forwarded request to a URL whose host
/// is admitted.
pub proof fn law_forwarded_only_to_admitted_hosts(text: Seq<char>, whitelist: Seq<Seq<char>>)
    ensures
        match route_spec(text, whitelist).1 {
            ActionView::Tunnel(hp) => is_allowed_spec(prefix_before(hp, ':'), whitelist),
            ActionView::Forward(u, _, _) => url_host(u) matches Some(t) && is_allowed_spec(
                t,
                whitelist,
            ),
            _ => true,
        },
{
}

/// Only a `CONNECT` request (its line in upper case begins with `CONNECT`)
/// opens a tunnel, and it is reported as `HTTPS` for the host of its
/// target; every other request is reported as `HTTP` followed by its
/// method, and never opens a tunnel.
pub proof fn law_connect_opens_tunnels(text: Seq<char>, whitelist: Seq<Seq<char>>)
    ensures
        route_spec(text, whitelist).1 is Tunnel ==> starts_with(spec_to_uppercase(first_line(text)), "CONNECT"@),
        starts_with(spec_to_uppercase(first_line(text)), "CONNECT"@) ==> (route_spec(text, whitelist).0 matches Some(e)
            ==> (e.action == "HTTPS"@ && (connect_target(first_line(text)) matches Some(hp) && e.domain == prefix_before(hp, ':')))),
        !starts_with(spec_to_uppercase(first_line(text)), "CONNECT"@) ==> (route_spec(text, whitelist).0 matches Some(e)
            && e.action == "HTTP "@ + request_method(first_line(text))),
        words(first_line(text)).len() >= 2 && lower_ascii(words(first_line(text))[0]) == "connect"@ ==> connect_target(
            first_line(text),
        ) == Some(words(first_line(text))[1]),
{
    reveal_strlit("CONNECT");
    reveal_strlit("connect");
    assert(lower_ascii("CONNECT"@) =~= "connect"@);
}

/// Every request that is reported is answered with the blocked page exactly
/// when it was refused, that page names what was refused, and a request is
/// reported as let through only when its host is admitted.
pub proof fn law_refused_hosts_are_blocked(text: Seq<char>, whitelist: Seq<Seq<char>>)
    ensures
        route_spec(text, whitelist).0 matches Some(e) ==> ((e.allowed ==> is_allowed_spec(
            e.domain,
            whitelist,
        )) && (!e.allowed <==> route_spec(text, whitelist).1 == ActionView::Block(e.domain))),
        route_spec(text, whitelist).1 matches ActionView::Forward(_, _, _) ==> route_spec(
            text,
            whitelist,
        ).0 matches Some(e) && e.allowed,
{
}

/// Decides what to do with a request: tunnels for `CONNECT` to an admitted
/// target, forwarding for plain requests whose absolute URL names an
/// admitted host, and the blocked answer for every refused request; reports
/// each request it could parse.
pub fn route_request(text: &str, whitelist: &[String]) -> (plan: RequestPlan)
    ensures
        plan@ == route_spec(text@, string_views(whitelist@)),
{
    let line = string_of(&first_line_exec(&chars_of(text)));
    let upper = chars_of(to_uppercase(line.as_str()).as_str());
    if starts_with_chars(&upper, &chars_of("CONNECT")) {
        match parse_connect_host(line.as_str()) {
            None => RequestPlan { event: None, action: ConnectionAction::Close },
            Some(hp) => {
                let host = string_of(&prefix_before_exec(&chars_of(hp.as_str()), ':'));
                let ok = is_allowed(host.as_str(), whitelist);
                let ev = ProxyEvent { domain: host.clone(), action: "HTTPS".to_owned(), allowed: ok };
                if ok {
                    RequestPlan { event: Some(ev), action: ConnectionAction::Tunnel { host_port: hp } }
                } else {
                    RequestPlan { event: Some(ev), action: ConnectionAction::Block { domain: host } }
                }
            },
        }
    } else {
        let method = parse_method(line.as_str());
        let mut action_text = "HTTP ".to_owned();
        action_text.append(method.as_str());
        let url = parse_request_url(line.as_str());
        let absolute = match &url {
            Some(u) => starts_with_chars(&chars_of(u.as_str()), &chars_of("http")),
            None => false,
        };
        if absolute {
            let u = match url {
                Some(u) => u,
                None => String::new(),
            };
            match parse_url_host(u.as_str()) {
                Some(target) => {
                    let ok = is_allowed(target.as_str(), whitelist);
                    let ev = ProxyEvent { domain: target.clone(), action: action_text, allowed: ok };
                    if ok {
                        let kind = method_kind_of(method.as_str());
                        let headers = forwarded_headers(text);
                        RequestPlan {
                            event: Some(ev),
                            action: ConnectionAction::Forward { url: u, method: kind, headers },
                        }
                    } else {
                        RequestPlan { event: Some(ev), action: ConnectionAction::Block { domain: target } }
                    }
                },
                None => {
                    let ev = ProxyEvent { domain: u.clone(), action: action_text, allowed: false };
                    RequestPlan { event: Some(ev), action: ConnectionAction::Block { domain: u } }
                },
            }
        } else {
            let host = match parse_host_header(text) {
                Some(h) => h,
                None => String::new(),
            };
            let ok = is_allowed(host.as_str(), whitelist);
            let ev = ProxyEvent { domain: host.clone(), action: action_text, allowed: ok };
            if ok {
                RequestPlan { event: Some(ev), action: ConnectionAction::BadRequest }
            } else {
                RequestPlan { event: Some(ev), action: ConnectionAction::Block { domain: host } }
            }
        }
    }
}

/// Decodes the first bytes read from a client (invalid UTF-8 replaced) and
/// decides what to do with the request.
pub fn plan_request(raw: &[u8], whitelist: &[String]) -> (plan: RequestPlan)
    ensures
        plan@ == route_spec(spec_utf8_lossy(raw@), string_views(whitelist@)),
{
    let text = utf8_lossy(raw);
    route_request(text.as_str(), whitelist)
}

} // verus!
