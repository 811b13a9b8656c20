use vstd::prelude::*;

use crate::fingerprint::fingerprint_of;
use crate::link::Link;
use crate::link::LinkV;
use crate::link::link_url;
use crate::link::spec_from_url;
use crate::pads::all_resolvable;
use crate::pads::md_link_targets;
use crate::pads::resolved_links;
use crate::tracker::Tracker;
use crate::tracker::TrackerV;
use crate::tracker::spec_from_existing;
use crate::tracker::spec_from_new;
use crate::tracker::spec_quiesce;
use crate::tracker::spec_update;

verus! {

/// The views of a sequence of links.
pub open spec fn link_views(s: Seq<Link>) -> Seq<LinkV> {
    s.map_values(|l: Link| l@)
}

/// Whether a sequence of link views holds no link twice.
pub open spec fn distinct_links(s: Seq<LinkV>) -> bool {
    forall|i: int, j: int| 0 <= i < j < s.len() ==> s[i] != s[j]
}

/// Mathematical state of the frontier: the links known so far, the traversal
/// queue of the running cycle, and the per-link tracker states.
pub ghost struct FrontierV {
    pub known: Seq<LinkV>,
    pub queue: Seq<LinkV>,
    pub trackers: Map<LinkV, TrackerV>,
}

/// The tracker that one observation leaves for a link: its current tracker fed
/// the new fingerprint, or, on first observation, a tracker started from the
/// prior persisted snapshot if one is given and fresh otherwise.
pub open spec fn spec_observe(
    trackers: Map<LinkV, TrackerV>,
    l: LinkV,
    prior: Option<Seq<char>>,
    content: Seq<char>,
    now: u64,
) -> TrackerV {
    if trackers.contains_key(l) {
        spec_update(trackers[l], fingerprint_of(content), now)
    } else {
        match prior {
            Some(p) => spec_from_existing(p, content, now),
            None => spec_from_new(content, now),
        }
    }
}

/// The set of known links and the traversal state of the crawl: grows the known
/// set monotonically, rebuilds the queue fresh each polling cycle, and owns one
/// change tracker per observed link.
pub struct Frontier {
    known: Vec<Link>,
    queue: Vec<Link>,
    trackers: Vec<(Link, Tracker)>,
}

/// The tracker association list read as a map from link view to tracker state.
spec fn trackers_map(s: Seq<(Link, Tracker)>) -> Map<LinkV, TrackerV>
    decreases s.len(),
{
    if s.len() == 0 {
        Map::empty()
    } else {
        trackers_map(s.drop_last()).insert(s.last().0@, s.last().1@)
    }
}

spec fn tracker_keys_unique(s: Seq<(Link, Tracker)>) -> bool {
    forall|i: int, j: int| 0 <= i < j < s.len() ==> s[i].0@ != s[j].0@
}

impl View for Frontier {
    type V = FrontierV;

    closed spec fn view(&self) -> FrontierV {
        FrontierV {
            known: link_views(self.known@),
            queue: link_views(self.queue@),
            trackers: trackers_map(self.trackers@),
        }
    }
}

proof fn lemma_tmap_contains(s: Seq<(Link, Tracker)>, l: LinkV)
    ensures
        trackers_map(s).contains_key(l) <==> exists|i: int| 0 <= i < s.len() && s[i].0@ == l,
    decreases s.len(),
{
    if s.len() > 0 {
        lemma_tmap_contains(s.drop_last(), l);
        if s.last().0@ == l {
            assert(s[s.len() - 1].0@ == l);
        } else {
            if trackers_map(s).contains_key(l) {
                let i = choose|i: int|
                    0 <= i < s.drop_last().len() && s.drop_last()[i].0@ == l;
                assert(s[i].0@ == l);
            }
            if exists|i: int| 0 <= i < s.len() && s[i].0@ == l {
                let i = choose|i: int| 0 <= i < s.len() && s[i].0@ == l;
                assert(i < s.len() - 1);
                assert(s.drop_last()[i].0@ == l);
            }
        }
    }
}

proof fn lemma_tmap_get(s: Seq<(Link, Tracker)>, i: int)
    requires
        tracker_keys_unique(s),
        0 <= i < s.len(),
    ensures
        trackers_map(s).contains_key(s[i].0@),
        trackers_map(s)[s[i].0@] == s[i].1@,
    decreases s.len(),
{
    if i < s.len() - 1 {
        assert(tracker_keys_unique(s.drop_last()));
        lemma_tmap_get(s.drop_last(), i);
        assert(s.drop_last()[i] == s[i]);
        assert(s.last().0@ != s[i].0@);
    }
}

proof fn lemma_tmap_update(s: Seq<(Link, Tracker)>, i: int, p: (Link, Tracker))
    requires
        tracker_keys_unique(s),
        0 <= i < s.len(),
        p.0@ == s[i].0@,
    ensures
        trackers_map(s.update(i, p)) == trackers_map(s).insert(p.0@, p.1@),
    decreases s.len(),
{
    let su = s.update(i, p);
    if i == s.len() - 1 {
        assert(su.drop_last() =~= s.drop_last());
        assert(su.last() == p);
        assert(trackers_map(s.drop_last()).insert(p.0@, p.1@) =~= trackers_map(s).insert(
            p.0@,
            p.1@,
        ));
    } else {
        assert(tracker_keys_unique(s.drop_last()));
        assert(su.drop_last() =~= s.drop_last().update(i, p));
        lemma_tmap_update(s.drop_last(), i, p);
        assert(su.last() == s.last());
        assert(s.last().0@ != p.0@);
        assert(trackers_map(s.drop_last()).insert(p.0@, p.1@).insert(s.last().0@, s.last().1@)
            =~= trackers_map(s.drop_last()).insert(s.last().0@, s.last().1@).insert(p.0@, p.1@));
    }
}

proof fn lemma_tmap_push(s: Seq<(Link, Tracker)>, p: (Link, Tracker))
    ensures
        trackers_map(s.push(p)) == trackers_map(s).insert(p.0@, p.1@),
{
    assert(s.push(p).drop_last() =~= s);
    assert(s.push(p).last() == p);
}

/// The link keys of a table of pad contents.
pub open spec fn page_keys(pages: Seq<(Link, String)>) -> Set<LinkV> {
    pages.map_values(|p: (Link, String)| p.0@).to_set()
}

/// The table's content for `l`: the first entry whose link matches, or nothing.
pub open spec fn spec_page(pages: Seq<(Link, String)>, l: LinkV) -> Option<Seq<char>>
    decreases pages.len(),
{
    if pages.len() == 0 {
        None
    } else if pages[0].0@ == l {
        Some(pages[0].1@)
    } else {
        spec_page(pages.drop_first(), l)
    }
}

proof fn lemma_spec_page_skip(pages: Seq<(Link, String)>, l: LinkV, i: int)
    requires
        0 <= i <= pages.len(),
        forall|j: int| 0 <= j < i ==> pages[j].0@ != l,
    ensures
        spec_page(pages, l) == spec_page(pages.skip(i), l),
    decreases i,
{
    if i == 0 {
        assert(pages.skip(0) =~= pages);
    } else {
        assert forall|j: int| 0 <= j < i - 1 implies pages.drop_first()[j].0@ != l by {
            assert(pages.drop_first()[j] == pages[j + 1]);
        }
        lemma_spec_page_skip(pages.drop_first(), l, i - 1);
        assert(pages.drop_first().skip(i - 1) =~= pages.skip(i));
    }
}

/// The table's content for `l`, if any: the first entry whose link matches.
#[verifier::loop_isolation(false)]
fn page_lookup<'a>(pages: &'a Vec<(Link, String)>, l: &Link) -> (r: Option<&'a String>)
    ensures
        r is Some <==> page_keys(pages@).contains(l@),
        match r {
            Some(c) => spec_page(pages@, l@) == Some(c@),
            None => spec_page(pages@, l@) is None,
        },
{
    let ghost keys = pages@.map_values(|p: (Link, String)| p.0@);
    let mut i: usize = 0;
    while i < pages.len()
        invariant
            0 <= i <= pages@.len(),
            forall|j: int| 0 <= j < i ==> pages@[j].0@ != l@,
        decreases pages@.len() - i,
    {
        if pages[i].0 == *l {
            proof {
                assert(keys[i as int] == l@);
                assert(keys.contains(l@));
                lemma_spec_page_skip(pages@, l@, i as int);
                assert(pages@.skip(i as int)[0] == pages@[i as int]);
                assert(pages@.skip(i as int).len() > 0);
            }
            return Some(&pages[i].1);
        }
        i += 1;
    }
    proof {
        assert forall|j: int| 0 <= j < keys.len() implies keys[j] != l@ by {
            assert(keys[j] == pages@[j].0@);
        }
        assert(!keys.contains(l@));
        lemma_spec_page_skip(pages@, l@, pages@.len() as int);
        assert(pages@.skip(pages@.len() as int).len() == 0);
    }
    None
}

/// Whether the link of `u`, if an allowed server recognizes one, is known.
pub open spec fn link_known(servers: Seq<Seq<char>>, u: Seq<char>, known: Seq<LinkV>) -> bool {
    match spec_from_url(servers, u) {
        Some(x) => known.contains(x),
        None => true,
    }
}

/// Whether every hyperlink of content `c`, read against the URL of the pad at
/// `l`, that resolves and that an allowed server recognizes is known. Holds
/// vacuously when some target does not resolve (extraction fails then).
pub open spec fn links_absorbed(
    servers: Seq<Seq<char>>,
    l: LinkV,
    c: Seq<char>,
    known: Seq<LinkV>,
) -> bool {
    all_resolvable(link_url(l), md_link_targets(c)) ==> forall|t: int|
        0 <= t < md_link_targets(c).len() ==> link_known(
            servers,
            #[trigger] resolved_links(link_url(l), md_link_targets(c))[t],
            known,
        )
}

/// Whether one visited link's page, if the table holds one, had its outbound
/// links absorbed into `known`.
pub open spec fn page_links_absorbed(
    servers: Seq<Seq<char>>,
    pages: Seq<(Link, String)>,
    l: LinkV,
    known: Seq<LinkV>,
) -> bool {
    match spec_page(pages, l) {
        Some(c) => links_absorbed(servers, l, c, known),
        None => true,
    }
}

/// Whether every visited page had its outbound links absorbed into `known`:
/// with the visited links, this closes the known set under reachability over
/// the table.
pub open spec fn pass_complete(
    servers: Seq<Seq<char>>,
    pages: Seq<(Link, String)>,
    visited: Seq<LinkV>,
    known: Seq<LinkV>,
) -> bool {
    forall|k: int|
        0 <= k < visited.len() ==> #[trigger] page_links_absorbed(
            servers,
            pages,
            visited[k],
            known,
        )
}

proof fn lemma_pass_complete_mono(
    servers: Seq<Seq<char>>,
    pages: Seq<(Link, String)>,
    visited: Seq<LinkV>,
    k1: Seq<LinkV>,
    k2: Seq<LinkV>,
)
    requires
        pass_complete(servers, pages, visited, k1),
        forall|x: LinkV| k1.contains(x) ==> #[trigger] k2.contains(x),
    ensures
        pass_complete(servers, pages, visited, k2),
{
    assert forall|k: int| 0 <= k < visited.len() implies #[trigger] page_links_absorbed(
        servers,
        pages,
        visited[k],
        k2,
    ) by {
        assert(page_links_absorbed(servers, pages, visited[k], k1));
        match spec_page(pages, visited[k]) {
            Some(c) => {
                if all_resolvable(link_url(visited[k]), md_link_targets(c)) {
                    assert forall|t: int|
                        0 <= t < md_link_targets(c).len() implies link_known(
                        servers,
                        #[trigger] resolved_links(link_url(visited[k]), md_link_targets(c))[t],
                        k2,
                    ) by {
                        assert(link_known(
                            servers,
                            resolved_links(link_url(visited[k]), md_link_targets(c))[t],
                            k1,
                        ));
                    }
                }
            },
            None => {},
        }
    }
}

proof fn lemma_push_to_set(s: Seq<LinkV>, x: LinkV)
    ensures
        s.push(x).to_set() == s.to_set().insert(x),
{
    assert forall|y: LinkV| s.push(x).to_set().contains(y) implies s.to_set().insert(x).contains(
        y,
    ) by {
        let k = choose|k: int| 0 <= k < s.push(x).len() && s.push(x)[k] == y;
        if k < s.len() {
            assert(s[k] == y);
            assert(s.contains(y));
        }
    }
    assert forall|y: LinkV| s.to_set().insert(x).contains(y) implies s.push(x).to_set().contains(
        y,
    ) by {
        if y == x {
            assert(s.push(x)[s.len() as int] == y);
        } else {
            let k = choose|k: int| 0 <= k < s.len() && s[k] == y;
            assert(s.push(x)[k] == y);
        }
        assert(s.push(x).contains(y));
    }
    assert(s.push(x).to_set() =~= s.to_set().insert(x));
}

proof fn lemma_prefix_contains(s1: Seq<LinkV>, s2: Seq<LinkV>, x: LinkV)
    requires
        s1.len() <= s2.len(),
        s2.take(s1.len() as int) == s1,
        s1.contains(x),
    ensures
        s2.contains(x),
{
    let k = choose|k: int| 0 <= k < s1.len() && s1[k] == x;
    assert(s2.take(s1.len() as int)[k] == x);
    assert(s2[k] == x);
}

proof fn lemma_contains_push(s: Seq<LinkV>, x: LinkV, y: LinkV)
    requires
        s.contains(y) || x == y,
    ensures
        s.push(x).contains(y),
{
    if s.contains(y) {
        let k = choose|k: int| 0 <= k < s.len() && s[k] == y;
        assert(s.push(x)[k] == y);
    } else {
        assert(s.push(x)[s.len() as int] == y);
    }
}

/// Whether `v` holds a link whose view is `l`'s.
fn contains_link_vec(v: &Vec<Link>, l: &Link) -> (r: bool)
    ensures
        r == link_views(v@).contains(l@),
{
    let mut i: usize = 0;
    while i < v.len()
        invariant
            0 <= i <= v@.len(),
            forall|j: int| 0 <= j < i ==> v@[j]@ != l@,
        decreases v@.len() - i,
    {
        if v[i] == *l {
            assert(link_views(v@)[i as int] == l@);
            return true;
        }
        i += 1;
    }
    assert(forall|j: int| 0 <= j < link_views(v@).len() ==> link_views(v@)[j] != l@);
    false
}

fn clone_links(v: &Vec<Link>) -> (r: Vec<Link>)
    ensures
        r@ == v@,
{
    let mut r: Vec<Link> = Vec::new();
    let mut i: usize = 0;
    while i < v.len()
        invariant
            0 <= i <= v@.len(),
            r@.len() == i,
            forall|j: int| 0 <= j < i ==> r@[j] == v@[j],
        decreases v@.len() - i,
    {
        r.push(v[i].clone());
        i += 1;
    }
    proof {
        assert(r@ =~= v@);
    }
    r
}

impl Frontier {
    /// Internal well-formedness: no link appears twice in the known set or the
    /// queue, every queued link is known, and no link has two trackers.
    pub closed spec fn wf(self) -> bool {
        &&& distinct_links(link_views(self.known@))
        &&& distinct_links(link_views(self.queue@))
        &&& forall|i: int|
            0 <= i < self.queue@.len() ==> link_views(self.known@).contains(self.queue@[i]@)
        &&& tracker_keys_unique(self.trackers@)
    }

    /// A frontier that knows the link of each seed URL, deduplicated, with an
    /// empty queue and no trackers yet; fails with the index of the first seed
    /// URL that no allowed server recognizes.
    #[verifier::loop_isolation(false)]
    pub fn from_seeds(servers: &Vec<String>, seeds: &Vec<String>) -> (r: Result<Frontier, usize>)
        ensures
            match r {
                Ok(f) => {
                    &&& f.wf()
                    &&& distinct_links(f@.known)
                    &&& f@.queue == Seq::<LinkV>::empty()
                    &&& f@.trackers == Map::<LinkV, TrackerV>::empty()
                    &&& forall|i: int|
                        0 <= i < seeds@.len() ==> spec_from_url(servers.deep_view(), seeds@[i]@)
                            is Some
                    &&& forall|i: int|
                        0 <= i < seeds@.len() ==> f@.known.contains(
                            spec_from_url(servers.deep_view(), seeds@[i]@)->0,
                        )
                    &&& forall|l: LinkV| #[trigger]
                        f@.known.contains(l) ==> exists|i: int|
                            0 <= i < seeds@.len() && spec_from_url(servers.deep_view(), seeds@[i]@)
                                == Some(l)
                },
                Err(e) => {
                    &&& e < seeds@.len()
                    &&& spec_from_url(servers.deep_view(), seeds@[e as int]@) is None
                    &&& forall|j: int|
                        0 <= j < e ==> spec_from_url(servers.deep_view(), seeds@[j]@) is Some
                },
            },
    {
        let mut f = Frontier { known: Vec::new(), queue: Vec::new(), trackers: Vec::new() };
        let mut i: usize = 0;
        while i < seeds.len()
            invariant
                0 <= i <= seeds@.len(),
                f.wf(),
                f@.queue == Seq::<LinkV>::empty(),
                f@.trackers == Map::<LinkV, TrackerV>::empty(),
                forall|j: int|
                    0 <= j < i ==> spec_from_url(servers.deep_view(), seeds@[j]@) is Some,
                forall|j: int|
                    0 <= j < i ==> f@.known.contains(
                        spec_from_url(servers.deep_view(), seeds@[j]@)->0,
                    ),
                forall|l: LinkV| #[trigger]
                    f@.known.contains(l) ==> exists|j: int|
                        0 <= j < i && spec_from_url(servers.deep_view(), seeds@[j]@) == Some(l),
            decreases seeds@.len() - i,
        {
            match Link::from_url(servers, seeds[i].as_str()) {
                Some(link) => {
                    let ghost lv = link@;
                    let ghost pre = f@.known;
                    let added = f.add_known(link);
                    proof {
                        if added {
                            lemma_contains_push(pre, lv, lv);
                        }
                        assert(f@.known.contains(lv));
                        assert forall|j: int| 0 <= j < i + 1 implies f@.known.contains(
                            spec_from_url(servers.deep_view(), seeds@[j]@)->0,
                        ) by {
                            if j < i {
                                if added {
                                    lemma_contains_push(
                                        pre,
                                        lv,
                                        spec_from_url(servers.deep_view(), seeds@[j]@)->0,
                                    );
                                }
                            } else {
                                assert(spec_from_url(servers.deep_view(), seeds@[j]@)
                                    == Some(lv));
                            }
                        }
                        assert forall|l: LinkV| #[trigger] f@.known.contains(l) implies exists|
                            j: int,
                        |
                            0 <= j < i + 1 && spec_from_url(servers.deep_view(), seeds@[j]@)
                                == Some(l) by {
                            if pre.contains(l) {
                                let j = choose|j: int|
                                    0 <= j < i && spec_from_url(servers.deep_view(), seeds@[j]@)
                                        == Some(l);
                                assert(0 <= j < i + 1 && spec_from_url(
                                    servers.deep_view(),
                                    seeds@[j]@,
                                ) == Some(l));
                            } else {
                                let k = choose|k: int|
                                    0 <= k < f@.known.len() && f@.known[k] == l;
                                if added {
                                    if k < pre.len() {
                                        assert(pre[k] == l);
                                        assert(pre.contains(l));
                                    }
                                    assert(l == lv);
                                } else {
                                    assert(pre[k] == l);
                                    assert(pre.contains(l));
                                }
                                assert(spec_from_url(servers.deep_view(), seeds@[i as int]@)
                                    == Some(l));
                            }
                        }
                    }
                },
                None => {
                    return Err(i);
                },
            }
            i += 1;
        }
        Ok(f)
    }

    /// Adds a link to the known set if it is new, leaving the queue and the
    /// trackers alone; reports whether the link was new.
    pub fn add_known(&mut self, link: Link) -> (added: bool)
        requires
            old(self).wf(),
        ensures
            final(self).wf(),
            added == !old(self)@.known.contains(link@),
            final(self)@.known == if added {
                old(self)@.known.push(link@)
            } else {
                old(self)@.known
            },
            final(self)@.queue == old(self)@.queue,
            final(self)@.trackers == old(self)@.trackers,
    {
        if contains_link_vec(&self.known, &link) {
            false
        } else {
            let ghost pre = self.known@;
            self.known.push(link);
            proof {
                assert(link_views(self.known@) =~= link_views(pre).push(link@));
                assert forall|i: int|
                    0 <= i < self.queue@.len() implies link_views(self.known@).contains(
                    self.queue@[i]@,
                ) by {
                    assert(link_views(pre).contains(self.queue@[i]@));
                    let k = choose|k: int|
                        0 <= k < link_views(pre).len() && link_views(pre)[k] == self.queue@[i]@;
                    assert(link_views(self.known@)[k] == self.queue@[i]@);
                }
            }
            true
        }
    }

    /// Starts a polling cycle: snapshots the known set into a fresh traversal
    /// queue, oldest known link first.
    pub fn begin_cycle(&mut self)
        requires
            old(self).wf(),
        ensures
            final(self).wf(),
            final(self)@.known == old(self)@.known,
            final(self)@.queue == old(self)@.known,
            final(self)@.trackers == old(self)@.trackers,
    {
        self.queue = clone_links(&self.known);
        proof {
            assert forall|i: int|
                0 <= i < self.queue@.len() implies link_views(self.known@).contains(
                self.queue@[i]@,
            ) by {
                assert(link_views(self.known@)[i] == self.queue@[i]@);
            }
        }
    }

    /// Takes the next link of the running cycle, in first-in-first-out order.
    pub fn next_link(&mut self) -> (r: Option<Link>)
        requires
            old(self).wf(),
        ensures
            final(self).wf(),
            final(self)@.known == old(self)@.known,
            final(self)@.trackers == old(self)@.trackers,
            match r {
                Some(l) => old(self)@.queue.len() > 0 && l@ == old(self)@.queue[0]
                    && final(self)@.queue == old(self)@.queue.drop_first(),
                None => old(self)@.queue.len() == 0 && final(self)@.queue == old(self)@.queue,
            },
    {
        if self.queue.len() == 0 {
            return None;
        }
        let ghost pre = self.queue@;
        let l = self.queue.remove(0);
        proof {
            assert(link_views(self.queue@) =~= link_views(pre).drop_first());
            assert forall|i: int|
                0 <= i < self.queue@.len() implies link_views(self.known@).contains(
                self.queue@[i]@,
            ) by {
                assert(self.queue@[i] == pre[i + 1]);
            }
        }
        Some(l)
    }

    /// Feeds one discovered URL to the frontier: a URL on an allowed server
    /// whose link is new joins the known set and the running cycle's queue; a
    /// known or unrecognized URL moves nothing. Reports whether a link was added.
    pub fn absorb_url(&mut self, servers: &Vec<String>, url: &str) -> (added: bool)
        requires
            old(self).wf(),
        ensures
            final(self).wf(),
            final(self)@.trackers == old(self)@.trackers,
            match spec_from_url(servers.deep_view(), url@) {
                Some(l) => if old(self)@.known.contains(l) {
                    !added && final(self)@ == old(self)@
                } else {
                    added && final(self)@.known == old(self)@.known.push(l) && final(self)@.queue
                        == old(self)@.queue.push(l)
                },
                None => !added && final(self)@ == old(self)@,
            },
    {
        match Link::from_url(servers, url) {
            Some(link) => {
                if contains_link_vec(&self.known, &link) {
                    false
                } else {
                    let ghost prek = self.known@;
                    let ghost preq = self.queue@;
                    proof {
                        assert(!link_views(preq).contains(link@));
                    }
                    self.queue.push(link.clone());
                    self.known.push(link);
                    proof {
                        assert(link_views(self.known@) =~= link_views(prek).push(link@));
                        assert(link_views(self.queue@) =~= link_views(preq).push(link@));
                        assert forall|i: int|
                            0 <= i < self.queue@.len() implies link_views(self.known@).contains(
                            self.queue@[i]@,
                        ) by {
                            if i < preq.len() {
                                assert(link_views(prek).contains(preq[i]@));
                                let k = choose|k: int|
                                    0 <= k < link_views(prek).len() && link_views(prek)[k]
                                        == preq[i]@;
                                assert(link_views(self.known@)[k] == self.queue@[i]@);
                            } else {
                                assert(link_views(self.known@)[link_views(prek).len() as int]
                                    == link@);
                            }
                        }
                    }
                    true
                }
            },
            None => false,
        }
    }

    /// Whether the link already has a tracker.
    pub fn has_tracker(&self, link: &Link) -> (r: bool)
        ensures
            r == self@.trackers.contains_key(link@),
    {
        let mut i: usize = 0;
        while i < self.trackers.len()
            invariant
                0 <= i <= self.trackers@.len(),
                forall|j: int| 0 <= j < i ==> self.trackers@[j].0@ != link@,
            decreases self.trackers@.len() - i,
        {
            if self.trackers[i].0 == *link {
                proof {
                    lemma_tmap_contains(self.trackers@, link@);
                }
                return true;
            }
            i += 1;
        }
        proof {
            lemma_tmap_contains(self.trackers@, link@);
        }
        false
    }

    /// Feeds one fetched content snapshot to the tracker of `link`, creating
    /// the tracker first if this is the link's first observation: from the
    /// prior persisted snapshot if one is given, as a fresh observation
    /// otherwise. The known set and the queue stay as they are.
    #[verifier::loop_isolation(false)]
    pub fn observe(&mut self, link: &Link, prior: Option<&String>, content: &str, now: u64)
        requires
            old(self).wf(),
        ensures
            final(self).wf(),
            final(self)@.known == old(self)@.known,
            final(self)@.queue == old(self)@.queue,
            final(self)@.trackers == old(self)@.trackers.insert(
                link@,
                spec_observe(old(self)@.trackers, link@, prior.deep_view(), content@, now),
            ),
    {
        let ghost pre = self.trackers@;
        let n = self.trackers.len();
        let mut i: usize = 0;
        while i < n
            invariant
                0 <= i <= n,
                n == self.trackers@.len(),
                self.trackers@ == pre,
                self.known@ == old(self).known@,
                self.queue@ == old(self).queue@,
                forall|j: int| 0 <= j < i ==> self.trackers@[j].0@ != link@,
            decreases n - i,
        {
            if self.trackers[i].0 == *link {
                proof {
                    assert(pre[i as int].0@ == link@);
                    lemma_tmap_get(pre, i as int);
                    assert(trackers_map(pre).contains_key(link@));
                    assert(trackers_map(pre)[link@] == pre[i as int].1@);
                }
                let pair = self.trackers.remove(i);
                let (key, mut t) = pair;
                assert(key@ == link@);
                assert(t@ == trackers_map(pre)[link@]);
                t.update(content, now);
                let ghost newpair = (key, t);
                self.trackers.insert(i, (key, t));
                proof {
                    assert(self.trackers@ =~= pre.update(i as int, newpair));
                    lemma_tmap_update(pre, i as int, newpair);
                    assert(newpair.1@ == spec_observe(
                        trackers_map(pre),
                        link@,
                        prior.deep_view(),
                        content@,
                        now,
                    ));
                    assert(self@.trackers == trackers_map(pre).insert(link@, newpair.1@));
                    assert(tracker_keys_unique(self.trackers@));
                }
                return ;
            }
            i += 1;
        }
        proof {
            lemma_tmap_contains(pre, link@);
            assert(!trackers_map(pre).contains_key(link@));
        }
        let t = match prior {
            Some(p) => Tracker::from_existing(p.as_str(), content, now),
            None => Tracker::from_new(content, now),
        };
        assert(t@ == spec_observe(trackers_map(pre), link@, prior.deep_view(), content@, now));
        let key = link.clone();
        let ghost newpair = (key, t);
        self.trackers.push((key, t));
        proof {
            assert(self.trackers@ =~= pre.push(newpair));
            lemma_tmap_push(pre, newpair);
            assert(self@.trackers == trackers_map(pre).insert(link@, newpair.1@));
            assert(tracker_keys_unique(self.trackers@));
        }
    }

    /// Settling check for the tracker of `link`: moves it as `Tracker::quiesce`
    /// does and reports whether the link's content settled just now.
    #[verifier::loop_isolation(false)]
    pub fn check_settled(&mut self, link: &Link, cool_down: u64, now: u64) -> (settled: bool)
        requires
            old(self).wf(),
            old(self)@.trackers.contains_key(link@),
        ensures
            final(self).wf(),
            final(self)@.known == old(self)@.known,
            final(self)@.queue == old(self)@.queue,
            final(self)@.trackers == old(self)@.trackers.insert(
                link@,
                spec_quiesce(old(self)@.trackers[link@], cool_down, now).0,
            ),
            settled == spec_quiesce(old(self)@.trackers[link@], cool_down, now).1,
    {
        let ghost pre = self.trackers@;
        let n = self.trackers.len();
        let mut i: usize = 0;
        while i < n
            invariant
                0 <= i <= n,
                n == self.trackers@.len(),
                self.trackers@ == pre,
                self.known@ == old(self).known@,
                self.queue@ == old(self).queue@,
                forall|j: int| 0 <= j < i ==> self.trackers@[j].0@ != link@,
            decreases n - i,
        {
            if self.trackers[i].0 == *link {
                proof {
                    assert(pre[i as int].0@ == link@);
                    lemma_tmap_get(pre, i as int);
                    assert(trackers_map(pre)[link@] == pre[i as int].1@);
                }
                let pair = self.trackers.remove(i);
                let (key, mut t) = pair;
                assert(key@ == link@);
                assert(t@ == trackers_map(pre)[link@]);
                let settled = t.quiesce(cool_down, now);
                let ghost newpair = (key, t);
                self.trackers.insert(i, (key, t));
                proof {
                    assert(self.trackers@ =~= pre.update(i as int, newpair));
                    lemma_tmap_update(pre, i as int, newpair);
                    assert(newpair.1@ == spec_quiesce(trackers_map(pre)[link@], cool_down, now).0);
                    assert(self@.trackers == trackers_map(pre).insert(link@, newpair.1@));
                    assert(tracker_keys_unique(self.trackers@));
                }
                return settled;
            }
            i += 1;
        }
        proof {
            lemma_tmap_contains(pre, link@);
            assert(false);
        }
        false
    }

    /// How many links wait in the running cycle's queue.
    pub fn queue_len(&self) -> (r: usize)
        ensures
            r == self@.queue.len(),
    {
        self.queue.len()
    }

    /// One full traversal pass of a polling cycle, driven from a fixed table of
    /// pad contents that stands in for the fetcher: the queue is seeded from the
    /// known set and links are visited in first-in-first-out order; every
    /// hyperlink of a visited pad that an allowed server recognizes and that is
    /// new joins the known set and is visited later in the same pass; a table
    /// miss or a failed extraction skips that one link and the pass goes on.
    /// The visited links come back in order: they are exactly the final known
    /// set — each reachable known link visited exactly once — the queue drains,
    /// every visited pad's resolvable links are known afterwards (the known set
    /// closes under reachability over the table), and the pass provably
    /// terminates, cycles in the link graph notwithstanding.
    #[verifier::loop_isolation(false)]
    pub fn crawl_pass(&mut self, servers: &Vec<String>, pages: &Vec<(Link, String)>) -> (visited:
        Vec<Link>)
        requires
            old(self).wf(),
        ensures
            final(self).wf(),
            link_views(visited@) == final(self)@.known,
            distinct_links(link_views(visited@)),
            old(self)@.known.len() <= final(self)@.known.len(),
            final(self)@.known.take(old(self)@.known.len() as int) == old(self)@.known,
            final(self)@.queue.len() == 0,
            final(self)@.trackers == old(self)@.trackers,
            pass_complete(servers.deep_view(), pages@, link_views(visited@), final(self)@.known),
    {
        broadcast use vstd::seq_lib::seq_to_set_is_finite;
        broadcast use vstd::set::group_set_axioms;

        let ghost sv = servers.deep_view();
        self.begin_cycle();
        let mut visited: Vec<Link> = Vec::new();
        proof {
            assert(link_views(visited@) + self@.queue =~= self@.known);
            assert(self@.known.take(old(self)@.known.len() as int) =~= old(self)@.known);
        }
        while 0 < self.queue_len()
            invariant
                self.wf(),
                link_views(visited@) + self@.queue == self@.known,
                self@.trackers == old(self)@.trackers,
                old(self)@.known.len() <= self@.known.len(),
                self@.known.take(old(self)@.known.len() as int) == old(self)@.known,
                pass_complete(sv, pages@, link_views(visited@), self@.known),
            decreases
                page_keys(pages@).difference(link_views(visited@).to_set()).len(),
                self@.queue.len(),
        {
            let ghost v0 = link_views(visited@);
            let ghost q0 = self@.queue;
            let ghost k0 = self@.known;
            let link = match self.next_link() {
                Some(l) => l,
                None => {
                    proof {
                        assert(false);
                    }
                    return visited;
                },
            };
            let ghost lv = link@;
            proof {
                assert(lv == q0[0]);
                assert(!v0.contains(lv)) by {
                    if v0.contains(lv) {
                        let k = choose|k: int| 0 <= k < v0.len() && v0[k] == lv;
                        assert(k0[k] == lv);
                        assert(k0[v0.len() as int] == lv);
                    }
                }
            }
            visited.push(link.clone());
            proof {
                assert(link_views(visited@) =~= v0.push(lv));
                assert(link_views(visited@) + self@.queue =~= self@.known);
                assert(self@.known.take(k0.len() as int) =~= k0);
            }
            let ghost v1 = link_views(visited@);
            match page_lookup(pages, &link) {
                Some(content) => {
                    let ghost targets = md_link_targets(content@);
                    match crate::pads::extract_links(&link, content.as_str()) {
                        Ok(urls) => {
                            proof {
                                assert(urls.deep_view().len() == urls@.len());
                                assert(resolved_links(link_url(lv), targets).len()
                                    == targets.len());
                            }
                            let mut k: usize = 0;
                            while k < urls.len()
                                invariant
                                    0 <= k <= urls@.len(),
                                    urls.deep_view() == resolved_links(link_url(lv), targets),
                                    urls@.len() == targets.len(),
                                    self.wf(),
                                    link_views(visited@) == v1,
                                    link_views(visited@) + self@.queue == self@.known,
                                    self@.trackers == old(self)@.trackers,
                                    old(self)@.known.len() <= self@.known.len(),
                                    self@.known.take(old(self)@.known.len() as int) == old(
                                        self,
                                    )@.known,
                                    k0.len() <= self@.known.len(),
                                    self@.known.take(k0.len() as int) == k0,
                                    forall|t: int|
                                        0 <= t < k ==> link_known(
                                            sv,
                                            #[trigger] urls.deep_view()[t],
                                            self@.known,
                                        ),
                                decreases urls@.len() - k,
                            {
                                let ghost ki = self@.known;
                                let _added = self.absorb_url(servers, urls[k].as_str());
                                proof {
                                    if self@.known.len() != ki.len() {
                                        assert(v1 + self@.queue =~= self@.known);
                                        assert(self@.known.take(old(self)@.known.len() as int)
                                            =~= ki.take(old(self)@.known.len() as int));
                                        assert(self@.known.take(k0.len() as int) =~= ki.take(
                                            k0.len() as int,
                                        ));
                                    }
                                    assert(self@.known.take(ki.len() as int) =~= ki);
                                    assert forall|t: int| 0 <= t < k + 1 implies link_known(
                                        sv,
                                        #[trigger] urls.deep_view()[t],
                                        self@.known,
                                    ) by {
                                        if t < k {
                                            assert(link_known(sv, urls.deep_view()[t], ki));
                                            match spec_from_url(sv, urls.deep_view()[t]) {
                                                Some(x) => {
                                                    lemma_prefix_contains(ki, self@.known, x);
                                                },
                                                None => {},
                                            }
                                        } else {
                                            assert(urls.deep_view()[t] == urls@[t]@);
                                            match spec_from_url(sv, urls.deep_view()[t]) {
                                                Some(x) => {
                                                    if !ki.contains(x) {
                                                        lemma_contains_push(ki, x, x);
                                                    }
                                                },
                                                None => {},
                                            }
                                        }
                                    }
                                }
                                k += 1;
                            }
                            proof {
                                assert forall|t: int| 0 <= t < targets.len() implies link_known(
                                    sv,
                                    #[trigger] resolved_links(link_url(lv), targets)[t],
                                    self@.known,
                                ) by {
                                    assert(link_known(sv, urls.deep_view()[t], self@.known));
                                }
                                assert(links_absorbed(sv, lv, content@, self@.known));
                                assert(page_links_absorbed(sv, pages@, lv, self@.known));
                            }
                        },
                        Err(_) => {
                            proof {
                                assert(!all_resolvable(link_url(lv), targets));
                                assert(page_links_absorbed(sv, pages@, lv, self@.known));
                            }
                        },
                    }
                },
                None => {
                    proof {
                        assert(spec_page(pages@, lv) is None);
                        assert(page_links_absorbed(sv, pages@, lv, self@.known));
                    }
                },
            }
            proof {
                assert forall|x: LinkV| k0.contains(x) implies #[trigger] self@.known.contains(
                    x,
                ) by {
                    lemma_prefix_contains(k0, self@.known, x);
                }
                lemma_pass_complete_mono(sv, pages@, v0, k0, self@.known);
                assert forall|k: int| 0 <= k < v1.len() implies #[trigger] page_links_absorbed(
                    sv,
                    pages@,
                    v1[k],
                    self@.known,
                ) by {
                    if k < v0.len() {
                        assert(v1[k] == v0[k]);
                        assert(page_links_absorbed(sv, pages@, v0[k], self@.known));
                    } else {
                        assert(v1[k] == lv);
                    }
                }
                assert(pass_complete(sv, pages@, v1, self@.known));
                lemma_push_to_set(v0, lv);
                if page_keys(pages@).contains(lv) {
                    assert(page_keys(pages@).difference(v0.to_set()).contains(lv));
                    assert(page_keys(pages@).difference(v1.to_set()) =~= page_keys(
                        pages@,
                    ).difference(v0.to_set()).remove(lv));
                } else {
                    assert(page_keys(pages@).difference(v1.to_set()) =~= page_keys(
                        pages@,
                    ).difference(v0.to_set()));
                }
            }
        }
        proof {
            assert(link_views(visited@) + self@.queue =~= link_views(visited@));
        }
        visited
    }

    /// How many links are known.
    pub fn known_count(&self) -> (r: usize)
        ensures
            r == self@.known.len(),
    {
        self.known.len()
    }
}

} // verus!
