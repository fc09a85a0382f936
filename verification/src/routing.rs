//! How an incoming request is logged and where it is forwarded.
use crate::text::{chars_of, string_of};
use vstd::prelude::*;
use vstd::string::StringExecFns;

verus! {

/// The part of `s` before the first `c`, or all of `s` when it holds no `c`.
pub open spec fn before_first(s: Seq<char>, c: char) -> Seq<char>
    decreases s.len(),
{
    if s.len() == 0 {
        s
    } else if s[0] == c {
        Seq::empty()
    } else {
        seq![s[0]] + before_first(s.drop_first(), c)
    }
}

/// `s` without the leading `p`, when it starts with `p`; else `s` itself.
pub open spec fn without_prefix(s: Seq<char>, p: Seq<char>) -> Seq<char> {
    if p.is_prefix_of(s) {
        s.skip(p.len() as int)
    } else {
        s
    }
}

pub open spec fn http_scheme() -> Seq<char> {
    seq!['h', 't', 't', 'p', ':', '/', '/']
}

pub open spec fn https_scheme() -> Seq<char> {
    seq!['h', 't', 't', 'p', 's', ':', '/', '/']
}

/// The host of a request's Host header: what stands before the port.
pub open spec fn host_part(host: Seq<char>) -> Seq<char> {
    before_first(host, ':')
}

/// A target address without its scheme: `http://` is taken off, then
/// `https://`.
pub open spec fn scheme_stripped(target: Seq<char>) -> Seq<char> {
    without_prefix(without_prefix(target, http_scheme()), https_scheme())
}

/// The address a request is forwarded to: `target/rest?query`.
pub open spec fn upstream_address(target: Seq<char>, rest: Seq<char>, query: Seq<char>) -> Seq<char> {
    target + seq!['/'] + rest + seq!['?'] + query
}

/// The line logged for a request: `host <rest>`.
pub open spec fn log_line(host: Seq<char>, rest: Seq<char>) -> Seq<char> {
    host + seq![' ', '<'] + rest + seq!['>']
}

/// The host whose requests are forwarded to the object store.
pub open spec fn object_store_host() -> Seq<char> {
    "minio.example.com"@
}

/// Where the object store is reached when no address is configured.
pub open spec fn default_object_store() -> Seq<char> {
    "http://localhost:9000"@
}

/// The upstream address is the target, a slash, the path, a question mark
/// and the whole query, in that order, with nothing added or left out.
pub proof fn lemma_upstream_address_parts(target: Seq<char>, rest: Seq<char>, query: Seq<char>)
    ensures
        ({
            let u = upstream_address(target, rest, query);
            let slash = target.len() as int;
            let mark = slash + 1 + rest.len();
            &&& u.len() == target.len() + rest.len() + query.len() + 2
            &&& u.subrange(0, slash) == target
            &&& u[slash] == '/'
            &&& u.subrange(slash + 1, mark) == rest
            &&& u[mark] == '?'
            &&& u.subrange(mark + 1, u.len() as int) == query
        }),
{
    let u = upstream_address(target, rest, query);
    let slash = target.len() as int;
    let mark = slash + 1 + rest.len();
    assert(u.subrange(0, slash) =~= target);
    assert(u.subrange(slash + 1, mark) =~= rest);
    assert(u.subrange(mark + 1, u.len() as int) =~= query);
}

/// The log line is the whole host, a space and `<`, the whole path, and a
/// closing `>`, also when the path is empty.
pub proof fn lemma_log_line_parts(host: Seq<char>, rest: Seq<char>)
    ensures
        ({
            let line = log_line(host, rest);
            let h = host.len() as int;
            &&& line.len() == host.len() + rest.len() + 3
            &&& line.subrange(0, h) == host
            &&& line[h] == ' '
            &&& line[h + 1] == '<'
            &&& line.subrange(h + 2, h + 2 + rest.len()) == rest
            &&& line.last() == '>'
        }),
{
    let line = log_line(host, rest);
    let h = host.len() as int;
    assert(line.subrange(0, h) =~= host);
    assert(line.subrange(h + 2, h + 2 + rest.len()) =~= rest);
}

proof fn lemma_prefix_of_concat(p: Seq<char>, s: Seq<char>)
    ensures
        p.is_prefix_of(p + s),
        (p + s).skip(p.len() as int) == s,
{
    assert((p + s).subrange(0, p.len() as int) =~= p);
    assert((p + s).skip(p.len() as int) =~= s);
}

/// Taking the scheme off a target: `http://` then `https://` go, each once
/// and whatever the target's length; a target with neither stays whole.
pub proof fn lemma_scheme_stripped_cases(s: Seq<char>)
    ensures
        scheme_stripped(http_scheme() + s) == without_prefix(s, https_scheme()),
        scheme_stripped(http_scheme() + https_scheme() + s) == s,
        !https_scheme().is_prefix_of(s) ==> scheme_stripped(http_scheme() + s) == s,
        scheme_stripped(https_scheme() + s) == s,
        !http_scheme().is_prefix_of(s) && !https_scheme().is_prefix_of(s) ==> scheme_stripped(s)
            == s,
{
    lemma_prefix_of_concat(http_scheme(), s);
    lemma_prefix_of_concat(https_scheme(), s);
    assert(http_scheme() + https_scheme() + s =~= http_scheme() + (https_scheme() + s));
    lemma_prefix_of_concat(http_scheme(), https_scheme() + s);
    let t = https_scheme() + s;
    assert(t[4] == 's');
    assert(http_scheme()[4] == ':');
    if http_scheme().is_prefix_of(t) {
        assert(t.subrange(0, 7)[4] == t[4]);
    }
}

/// Where a request goes.
pub enum Forwarding {
    /// No upstream serves the request: it is answered here, not forwarded.
    NotFound,
    /// The request goes to `url`, with its Host header set to `host_header`.
    Upstream { host_header: String, url: String },
}

/// What to do with one request: the line to log, if any, and where it goes.
pub struct RequestPlan {
    pub log_message: Option<String>,
    pub forward: Forwarding,
}

proof fn lemma_before_first_split(s: Seq<char>, c: char, i: int)
    requires
        0 <= i <= s.len(),
        forall|j: int| 0 <= j < i ==> s[j] != c,
    ensures
        before_first(s, c) == s.take(i) + before_first(s.skip(i), c),
    decreases i,
{
    if i == 0 {
        assert(s.skip(0) =~= s);
        assert(s.take(0) + before_first(s, c) =~= before_first(s, c));
    } else {
        let d = s.drop_first();
        assert forall|j: int| 0 <= j < i - 1 implies d[j] != c by {
            assert(d[j] == s[j + 1]);
        }
        lemma_before_first_split(d, c, i - 1);
        assert(d.skip(i - 1) =~= s.skip(i));
        assert(seq![s[0]] + d.take(i - 1) =~= s.take(i));
        assert(seq![s[0]] + (d.take(i - 1) + before_first(s.skip(i), c)) =~= s.take(i)
            + before_first(s.skip(i), c));
    }
}

/// The host part is the longest prefix without a colon: it is a prefix of
/// the header, holds no colon, and is followed by a colon unless it is the
/// whole header.
pub proof fn lemma_host_part_shape(host: Seq<char>)
    ensures
        host_part(host).is_prefix_of(host),
        !host_part(host).contains(':'),
        host_part(host).len() == host.len() || host[host_part(host).len() as int] == ':',
    decreases host.len(),
{
    if host.len() > 0 && host[0] != ':' {
        let d = host.drop_first();
        lemma_host_part_shape(d);
        let r = host_part(host);
        assert(r == seq![host[0]] + host_part(d));
        assert forall|i: int| 0 <= i < r.len() implies r[i] == host[i] by {
            if i > 0 {
                assert(r[i] == host_part(d)[i - 1]);
                assert(host_part(d)[i - 1] == d[i - 1]);
            }
        }
        assert(r =~= host.subrange(0, r.len() as int));
        assert forall|i: int| 0 <= i < r.len() implies r[i] != ':' by {
            if i > 0 {
                assert(r[i] == host_part(d)[i - 1]);
                assert(host_part(d).contains(host_part(d)[i - 1]) ==> host_part(d)[i - 1] != ':');
            }
        }
        if r.len() < host.len() {
            assert(host[r.len() as int] == d[host_part(d).len() as int]);
        }
    } else if host.len() > 0 {
        assert(host_part(host) =~= Seq::<char>::empty());
    }
}

/// The host of a Host header value, without the port.
pub fn host_without_port(host: &str) -> (r: String)
    ensures
        r@ == host_part(host@),
{
    let chars = chars_of(host);
    let mut i: usize = 0;
    while i < chars.len() && chars[i] != ':'
        invariant
            i <= chars.len(),
            chars@ == host@,
            forall|j: int| 0 <= j < i ==> chars@[j] != ':',
        decreases chars.len() - i,
    {
        i = i + 1;
    }
    proof {
        lemma_before_first_split(host@, ':', i as int);
        assert(before_first(host@.skip(i as int), ':') =~= Seq::<char>::empty());
        assert(host@.take(i as int) + Seq::<char>::empty() =~= host@.subrange(0, i as int));
    }
    string_of(&chars, 0, i)
}

/// Whether `p` occurs in `s` at position `at`.
fn occurs_at(s: &Vec<char>, at: usize, p: &Vec<char>) -> (b: bool)
    requires
        at <= s.len(),
    ensures
        b == p@.is_prefix_of(s@.skip(at as int)),
{
    if p.len() > s.len() - at {
        return false;
    }
    let mut i: usize = 0;
    while i < p.len()
        invariant
            i <= p.len() <= s.len() - at,
            at <= s.len(),
            forall|j: int| 0 <= j < i ==> p@[j] == s@[at + j],
        decreases p.len() - i,
    {
        if p[i] != s[at + i] {
            assert(p@[i as int] != s@.skip(at as int)[i as int]);
            return false;
        }
        i = i + 1;
    }
    assert(p@ =~= s@.skip(at as int).subrange(0, p@.len() as int));
    true
}

/// A target address without its `http://` and then its `https://` prefix.
pub fn strip_scheme(target: &str) -> (r: String)
    ensures
        r@ == scheme_stripped(target@),
{
    let chars = chars_of(target);
    let http = vec!['h', 't', 't', 'p', ':', '/', '/'];
    let https = vec!['h', 't', 't', 'p', 's', ':', '/', '/'];
    assert(http@ == http_scheme());
    assert(https@ == https_scheme());
    let first = if occurs_at(&chars, 0, &http) {
        http.len()
    } else {
        0
    };
    assert(chars@.skip(0) =~= chars@);
    let ghost once = without_prefix(target@, http_scheme());
    assert(once =~= chars@.skip(first as int));
    let second = if occurs_at(&chars, first, &https) {
        first + https.len()
    } else {
        first
    };
    assert(without_prefix(once, https_scheme()) =~= chars@.skip(second as int));
    string_of(&chars, second, chars.len())
}

/// The address `target/rest?query`.
pub fn upstream_url(target: &str, rest: &str, query: &str) -> (r: String)
    ensures
        r@ == upstream_address(target@, rest@, query@),
{
    let mut r = target.to_owned();
    r.append("/");
    r.append(rest);
    r.append("?");
    r.append(query);
    proof {
        reveal_strlit("/");
        reveal_strlit("?");
    }
    assert(r@ =~= upstream_address(target@, rest@, query@));
    r
}

/// The log line `host <rest>`.
pub fn log_message(host: &str, rest: &str) -> (r: String)
    ensures
        r@ == log_line(host@, rest@),
{
    let mut r = host.to_owned();
    r.append(" <");
    r.append(rest);
    r.append(">");
    proof {
        reveal_strlit(" <");
        reveal_strlit(">");
    }
    assert(r@ =~= log_line(host@, rest@));
    r
}

/// Plans a request from its Host header (absent when the header is missing
/// or not text), the rest of its path, its query, and the configured
/// object-store address. A request with a host is logged; one for the
/// object-store host is forwarded there, any other is answered here.
pub fn plan_request(host_header: Option<&str>, rest: &str, query: &str, object_store: Option<&str>) -> (plan: RequestPlan)
    ensures
        match host_header {
            None => plan.log_message is None && plan.forward is NotFound,
            Some(host) => {
                &&& plan.log_message matches Some(line) && line@ == log_line(host@, rest@)
                &&& if host_part(host@) == object_store_host() {
                    let target = match object_store {
                        Some(url) => url@,
                        None => default_object_store(),
                    };
                    plan.forward matches Forwarding::Upstream { host_header, url }
                        && host_header@ == scheme_stripped(target)
                        && url@ == upstream_address(target, rest@, query@)
                } else {
                    plan.forward is NotFound
                }
            },
        },
{
    match host_header {
        None => RequestPlan { log_message: None, forward: Forwarding::NotFound },
        Some(host) => {
            let line = log_message(host, rest);
            let name = host_without_port(host);
            let store_host = "minio.example.com".to_owned();
            if name == store_host {
                let target = match object_store {
                    Some(url) => url.to_owned(),
                    None => "http://localhost:9000".to_owned(),
                };
                let host_value = strip_scheme(target.as_str());
                let url = upstream_url(target.as_str(), rest, query);
                RequestPlan {
                    log_message: Some(line),
                    forward: Forwarding::Upstream { host_header: host_value, url },
                }
            } else {
                RequestPlan { log_message: Some(line), forward: Forwarding::NotFound }
            }
        },
    }
}

} // verus!
