use vstd::prelude::*;
use vstd::string::*;

verus! {

/// Mathematical identity of a pad: the character sequences of its server and name.
pub ghost struct LinkV {
    pub server: Seq<char>,
    pub name: Seq<char>,
}

/// The URL prefix that a server's pads live under.
pub open spec fn link_prefix(server: Seq<char>) -> Seq<char> {
    "https://"@ + server + "/"@
}

/// The absolute URL of a link: `https://{server}/{name}`.
pub open spec fn link_url(l: LinkV) -> Seq<char> {
    link_prefix(l.server) + l.name
}

/// Whether the characters of `p` are a prefix of `s`.
pub open spec fn has_prefix(s: Seq<char>, p: Seq<char>) -> bool {
    s.len() >= p.len() && s.subrange(0, p.len() as int) == p
}

/// Whether `url` starts with `https://{server}/`.
pub open spec fn matches_server(server: Seq<char>, url: Seq<char>) -> bool {
    has_prefix(url, link_prefix(server))
}

/// The link that `url` denotes on `server`: the remainder after the server's prefix.
pub open spec fn link_of(server: Seq<char>, url: Seq<char>) -> LinkV {
    LinkV { server, name: url.subrange(link_prefix(server).len() as int, url.len() as int) }
}

/// Canonical reading of a URL against an ordered list of allowed servers:
/// the link on the first server whose prefix matches, or nothing.
pub open spec fn spec_from_url(servers: Seq<Seq<char>>, url: Seq<char>) -> Option<LinkV>
    decreases servers.len(),
{
    if servers.len() == 0 {
        None
    } else if matches_server(servers[0], url) {
        Some(link_of(servers[0], url))
    } else {
        spec_from_url(servers.drop_first(), url)
    }
}

/// Identity of a pad: the server that hosts it and its name on that server.
pub struct Link {
    pub server: String,
    pub name: String,
}

impl View for Link {
    type V = LinkV;

    open spec fn view(&self) -> LinkV {
        LinkV { server: self.server@, name: self.name@ }
    }
}

impl Clone for Link {
    fn clone(&self) -> (r: Self)
        ensures
            r == *self,
    {
        Link { server: self.server.clone(), name: self.name.clone() }
    }
}

impl PartialEq for Link {
    fn eq(&self, other: &Self) -> (r: bool) {
        self.server == other.server && self.name == other.name
    }
}

impl vstd::std_specs::cmp::PartialEqSpecImpl for Link {
    open spec fn obeys_eq_spec() -> bool {
        true
    }

    open spec fn eq_spec(&self, other: &Self) -> bool {
        self@ == other@
    }
}

/// Builds `https://{server}/`.
fn make_prefix(server: &String) -> (r: String)
    ensures
        r@ == link_prefix(server@),
{
    let mut s = String::from_str("https://");
    s.append(server.as_str());
    s.append("/");
    s
}

/// Whether the characters of `p` are a prefix of `s`.
fn str_has_prefix(s: &str, p: &str) -> (r: bool)
    ensures
        r == has_prefix(s@, p@),
{
    let n = p.unicode_len();
    let m = s.unicode_len();
    if m < n {
        return false;
    }
    let mut i: usize = 0;
    while i < n
        invariant
            0 <= i <= n,
            n == p@.len(),
            m == s@.len(),
            n <= m,
            forall|j: int| 0 <= j < i ==> s@[j] == p@[j],
        decreases n - i,
    {
        if s.get_char(i) != p.get_char(i) {
            assert(s@.subrange(0, p@.len() as int)[i as int] != p@[i as int]);
            return false;
        }
        i += 1;
    }
    proof {
        assert(s@.subrange(0, p@.len() as int) =~= p@);
    }
    true
}

proof fn lemma_spec_from_url_skip(servers: Seq<Seq<char>>, url: Seq<char>, i: int)
    requires
        0 <= i <= servers.len(),
        forall|j: int| 0 <= j < i ==> !matches_server(servers[j], url),
    ensures
        spec_from_url(servers, url) == spec_from_url(servers.skip(i), url),
    decreases i,
{
    if i == 0 {
        assert(servers.skip(0) =~= servers);
    } else {
        assert(!matches_server(servers[0], url));
        assert forall|j: int| 0 <= j < i - 1 implies !matches_server(
            servers.drop_first()[j],
            url,
        ) by {
            assert(servers.drop_first()[j] == servers[j + 1]);
        }
        lemma_spec_from_url_skip(servers.drop_first(), url, i - 1);
        assert(servers.drop_first().skip(i - 1) =~= servers.skip(i));
    }
}

/// A link's URL reads back as the link itself, for any allow-set that holds the
/// link's server and in which no other server's prefix matches that URL (allowed
/// servers are disjoint prefixes in practice).
pub proof fn lemma_url_round_trip(servers: Seq<Seq<char>>, l: LinkV)
    requires
        servers.contains(l.server),
        forall|j: int|
            0 <= j < servers.len() && matches_server(servers[j], link_url(l)) ==> servers[j]
                == l.server,
    ensures
        spec_from_url(servers, link_url(l)) == Some(l),
    decreases servers.len(),
{
    let url = link_url(l);
    let p = link_prefix(l.server);
    assert(url.subrange(0, p.len() as int) =~= p);
    assert(matches_server(l.server, url));
    if servers[0] == l.server {
        assert(url.subrange(p.len() as int, url.len() as int) =~= l.name);
        assert(link_of(l.server, url) == l);
    } else {
        assert(!matches_server(servers[0], url));
        let k = choose|k: int| 0 <= k < servers.len() && servers[k] == l.server;
        assert(k > 0);
        assert(servers.drop_first()[k - 1] == l.server);
        assert(servers.drop_first().contains(l.server));
        assert forall|j: int|
            0 <= j < servers.drop_first().len() && matches_server(
                servers.drop_first()[j],
                url,
            ) implies servers.drop_first()[j] == l.server by {
            assert(servers.drop_first()[j] == servers[j + 1]);
        }
        lemma_url_round_trip(servers.drop_first(), l);
    }
}

impl Link {
    /// A link made directly from its two parts.
    pub fn new(server: String, name: String) -> (r: Self)
        ensures
            r@ == (LinkV { server: server@, name: name@ }),
    {
        Link { server, name }
    }

    /// Reads a URL back into a link: succeeds exactly when the URL starts with
    /// `https://{s}/` for some allowed server `s`, taking the remainder as the name.
    pub fn from_url(servers: &Vec<String>, url: &str) -> (r: Option<Self>)
        ensures
            match r {
                Some(l) => spec_from_url(servers.deep_view(), url@) == Some(l@),
                None => spec_from_url(servers.deep_view(), url@) is None,
            },
    {
        let ghost sv = servers.deep_view();
        let mut i: usize = 0;
        while i < servers.len()
            invariant
                0 <= i <= servers.len(),
                sv == servers.deep_view(),
                sv.len() == servers@.len(),
                forall|j: int| 0 <= j < i ==> !matches_server(sv[j], url@),
            decreases servers.len() - i,
        {
            let prefix = make_prefix(&servers[i]);
            assert(prefix@ == link_prefix(sv[i as int]));
            if str_has_prefix(url, prefix.as_str()) {
                let plen = prefix.as_str().unicode_len();
                let ulen = url.unicode_len();
                let name = url.substring_char(plen, ulen).to_owned();
                let server = servers[i].clone();
                proof {
                    lemma_spec_from_url_skip(sv, url@, i as int);
                    assert(sv.skip(i as int)[0] == sv[i as int]);
                    assert(matches_server(sv[i as int], url@));
                    assert(sv.skip(i as int).len() > 0);
                }
                let l = Link { server, name };
                assert(l@ == link_of(sv[i as int], url@));
                return Some(l);
            }
            i += 1;
        }
        proof {
            lemma_spec_from_url_skip(sv, url@, servers@.len() as int);
            assert(sv.skip(servers@.len() as int).len() == 0);
        }
        None
    }

    /// The absolute URL of this link, `https://{server}/{name}`.
    pub fn as_url(&self) -> (r: String)
        ensures
            r@ == link_url(self@),
    {
        let mut s = make_prefix(&self.server);
        s.append(self.name.as_str());
        s
    }
}

} // verus!
