use vstd::prelude::*;

verus! {

/// Where the snapshot store keeps its files.
pub struct RepoConfig {
    pub path: String,
}

/// What the crawler watches: the allowed servers, the seed URLs,
/// and the pause between polling cycles, in milliseconds.
pub struct CrawlConfig {
    pub servers: Vec<String>,
    pub seeds: Vec<String>,
    pub interval: u64,
}

/// How changes are reported: the cool-down window, in milliseconds,
/// and the credentials and room of the chat account that announces them.
pub struct NotifyConfig {
    pub cool_down: u64,
    pub username: String,
    pub password: String,
    pub room: String,
}

/// The whole configuration, loaded once at startup and immutable afterwards.
pub struct Config {
    pub repo: RepoConfig,
    pub crawl: CrawlConfig,
    pub notify: NotifyConfig,
}

} // verus!
