use vstd::prelude::*;

use crate::link::Link;
use crate::link::link_url;

verus! {

/// The destinations of the hyperlinks a markdown document contains, in order.
pub uninterp spec fn md_link_targets(content: Seq<char>) -> Seq<Seq<char>>;

/// Relies on pulldown_cmark::Parser: walking the events of `content` with all
/// extensions enabled yields one link-start event per hyperlink, carrying its
/// destination; the result depends on `content` alone.
#[verifier::external_body]
fn markdown_link_targets(content: &str) -> (r: Vec<String>)
    ensures
        r.deep_view() == md_link_targets(content@),
{
    let mut targets = Vec::new();
    let parser = pulldown_cmark::Parser::new_ext(content, pulldown_cmark::Options::all());
    for event in parser {
        if let pulldown_cmark::Event::Start(pulldown_cmark::Tag::Link { dest_url, .. }) = event {
            targets.push(dest_url.to_string());
        }
    }
    targets
}

/// What a link target resolves to against a base URL, fragment removed;
/// nothing when the base or the target cannot be parsed as a URL.
pub uninterp spec fn resolved_url(base: Seq<char>, target: Seq<char>) -> Option<Seq<char>>;

/// Relies on url::Url: parses `target` against `base` as its base URL, removes
/// the fragment and renders the absolute URL; the result depends on the two
/// strings alone.
#[verifier::external_body]
fn resolve_against(base: &str, target: &str) -> (r: Option<String>)
    ensures
        r is Some <==> resolved_url(base@, target@) is Some,
        r is Some ==> resolved_url(base@, target@) == Some(r->0@),
{
    let base_url = match url::Url::parse(base) {
        Ok(u) => u,
        Err(_) => return None,
    };
    match url::Url::options().base_url(Some(&base_url)).parse(target) {
        Ok(mut u) => {
            u.set_fragment(None);
            Some(u.to_string())
        },
        Err(_) => None,
    }
}

/// Whether every one of `targets` resolves against `base`.
pub open spec fn all_resolvable(base: Seq<char>, targets: Seq<Seq<char>>) -> bool {
    forall|i: int| 0 <= i < targets.len() ==> resolved_url(base, targets[i]) is Some
}

/// The resolution of each of `targets` against `base`, in order.
pub open spec fn resolved_links(base: Seq<char>, targets: Seq<Seq<char>>) -> Seq<Seq<char>> {
    Seq::new(targets.len(), |i: int| resolved_url(base, targets[i])->0)
}

/// A link target that does not parse as a URL against the pad's own URL.
#[derive(Debug)]
pub struct ExtractError;

/// Every hyperlink of `content`, resolved to absolute fragment-free form
/// against the URL of `link`; fails exactly when some target does not resolve.
pub fn extract_links(link: &Link, content: &str) -> (r: Result<Vec<String>, ExtractError>)
    ensures
        match r {
            Ok(urls) => all_resolvable(link_url(link@), md_link_targets(content@))
                && urls.deep_view() == resolved_links(
                link_url(link@),
                md_link_targets(content@),
            ),
            Err(_) => !all_resolvable(link_url(link@), md_link_targets(content@)),
        },
{
    let base = link.as_url();
    let targets = markdown_link_targets(content);
    let ghost tv = targets.deep_view();
    let mut urls: Vec<String> = Vec::new();
    let mut i: usize = 0;
    while i < targets.len()
        invariant
            0 <= i <= targets@.len(),
            tv == targets.deep_view(),
            tv.len() == targets@.len(),
            base@ == link_url(link@),
            tv == md_link_targets(content@),
            forall|j: int| 0 <= j < i ==> resolved_url(base@, tv[j]) is Some,
            urls@.len() == i,
            forall|j: int| 0 <= j < i ==> urls@[j]@ == resolved_url(base@, tv[j])->0,
        decreases targets@.len() - i,
    {
        assert(tv[i as int] == targets@[i as int]@);
        match resolve_against(base.as_str(), targets[i].as_str()) {
            Some(u) => {
                assert(u@ == resolved_url(base@, tv[i as int])->0);
                urls.push(u);
            },
            None => {
                assert(resolved_url(base@, tv[i as int]) is None);
                return Err(ExtractError);
            },
        }
        i += 1;
    }
    proof {
        assert(urls.deep_view() =~= resolved_links(base@, tv));
    }
    Ok(urls)
}

/// Immutable snapshot of one fetch of a pad: its identity, title and content,
/// with the creation and update times the server reports, as seconds since the
/// epoch.
pub struct Pad {
    pub link: Link,
    pub title: String,
    pub create_time: i64,
    pub update_time: i64,
    pub content: String,
}

impl Pad {
    /// Every outbound hyperlink of this pad, as absolute fragment-free URLs
    /// resolved against the pad's own URL; fails exactly when some link target
    /// does not resolve.
    pub fn crawl(&self) -> (r: Result<Vec<String>, ExtractError>)
        ensures
            match r {
                Ok(urls) => all_resolvable(link_url(self.link@), md_link_targets(self.content@))
                    && urls.deep_view() == resolved_links(
                    link_url(self.link@),
                    md_link_targets(self.content@),
                ),
                Err(_) => !all_resolvable(link_url(self.link@), md_link_targets(self.content@)),
            },
    {
        extract_links(&self.link, self.content.as_str())
    }
}

} // verus!
