use vstd::prelude::*;
use vstd::string::*;

use crate::link::Link;

verus! {

/// The layout of the snapshot store: one file per pad, at `{path}/{server}/{name}`.
/// Reading, writing and listing those files is the store's own work; this type
/// only fixes where each pad's snapshot lives.
pub struct Repo {
    path: String,
}

impl View for Repo {
    type V = Seq<char>;

    closed spec fn view(&self) -> Seq<char> {
        self.path@
    }
}

impl Repo {
    /// A store rooted at `path`.
    pub fn new(path: String) -> (r: Self)
        ensures
            r@ == path@,
    {
        Repo { path }
    }

    /// The file that holds `link`'s snapshot: `{path}/{server}/{name}`.
    pub fn path_for(&self, link: &Link) -> (r: String)
        ensures
            r@ == self@ + "/"@ + link@.server + "/"@ + link@.name,
    {
        let mut s = self.path.clone();
        s.append("/");
        s.append(link.server.as_str());
        s.append("/");
        s.append(link.name.as_str());
        s
    }

    /// The directory that holds the snapshots of `link`'s server: `{path}/{server}`.
    pub fn dir_for(&self, link: &Link) -> (r: String)
        ensures
            r@ == self@ + "/"@ + link@.server,
    {
        let mut s = self.path.clone();
        s.append("/");
        s.append(link.server.as_str());
        s
    }
}

} // verus!
