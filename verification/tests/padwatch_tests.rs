use padwatch::fingerprint::Fingerprint;
use padwatch::frontier::Frontier;
use padwatch::link::Link;
use padwatch::pads::Pad;
use padwatch::repo::Repo;
use padwatch::tracker::Tracker;

fn servers() -> Vec<String> {
    vec!["pad.example".to_string()]
}

fn doc(name: &str) -> Link {
    Link::new("pad.example".to_string(), name.to_string())
}

fn pad(name: &str, content: &str) -> Pad {
    Pad {
        link: doc(name),
        title: name.to_string(),
        create_time: 0,
        update_time: 0,
        content: content.to_string(),
    }
}

#[test]
fn link_new_holds_its_parts() {
    let l = Link::new("pad.example".to_string(), "doc1".to_string());
    assert_eq!(l.server, "pad.example");
    assert_eq!(l.name, "doc1");
}

#[test]
fn link_as_url_renders_absolute_form() {
    assert_eq!(doc("doc1").as_url(), "https://pad.example/doc1");
}

#[test]
fn link_from_url_recognizes_allowed_server() {
    let l = Link::from_url(&servers(), "https://pad.example/doc1").unwrap();
    assert_eq!(l.server, "pad.example");
    assert_eq!(l.name, "doc1");
}

#[test]
fn link_from_url_keeps_the_remainder_as_name() {
    let l = Link::from_url(&servers(), "https://pad.example/a/b").unwrap();
    assert_eq!(l.name, "a/b");
}

#[test]
fn link_from_url_rejects_unknown_host() {
    assert!(Link::from_url(&servers(), "https://other.example/doc3").is_none());
}

#[test]
fn link_from_url_rejects_other_scheme() {
    assert!(Link::from_url(&servers(), "http://pad.example/doc1").is_none());
}

#[test]
fn link_round_trips_through_url() {
    let l = doc("notes/today");
    let back = Link::from_url(&servers(), &l.as_url()).unwrap();
    assert!(back == l);
}

#[test]
fn fingerprint_is_deterministic() {
    assert!(Fingerprint::of("hello").same(&Fingerprint::of("hello")));
}

#[test]
fn fingerprint_distinguishes_contents() {
    assert!(!Fingerprint::of("hello").same(&Fingerprint::of("hello!")));
}

#[test]
fn fingerprint_is_the_sha256_digest() {
    let expected: Vec<u8> = vec![
        0xba, 0x78, 0x16, 0xbf, 0x8f, 0x01, 0xcf, 0xea, 0x41, 0x41, 0x40, 0xde, 0x5d, 0xae,
        0x22, 0x23, 0xb0, 0x03, 0x61, 0xa3, 0x96, 0x17, 0x7a, 0x9c, 0xb4, 0x10, 0xff, 0x61,
        0xf2, 0x00, 0x15, 0xad,
    ];
    assert_eq!(Fingerprint::of("abc").bytes(), &expected);
}

#[test]
fn tracker_from_new_is_vivacious() {
    assert!(Tracker::from_new("content", 1000).is_vivacious());
}

#[test]
fn tracker_from_existing_unchanged_is_quiescent() {
    assert!(Tracker::from_existing("same", "same", 1000).is_quiescent());
}

#[test]
fn tracker_from_existing_changed_is_vivacious() {
    assert!(Tracker::from_existing("old", "new", 1000).is_vivacious());
}

#[test]
fn tracker_update_twice_acts_like_once() {
    // A repeated observation of the same content must not restart the window:
    // the tracker still settles as counted from the first observation.
    let mut t = Tracker::from_new("draft", 1000);
    t.update("draft", 1400);
    assert!(t.quiesce(500, 1501));
}

#[test]
fn tracker_update_with_change_restarts_window() {
    let mut t = Tracker::from_new("draft", 1000);
    t.update("draft v2", 1400);
    assert!(!t.quiesce(500, 1501));
    assert!(t.quiesce(500, 1901));
}

#[test]
fn tracker_quiesce_is_edge_triggered() {
    let mut t = Tracker::from_new("draft", 1000);
    assert!(!t.quiesce(500, 1500));
    assert!(t.is_vivacious());
    assert!(t.quiesce(500, 1501));
    assert!(t.is_quiescent());
    assert!(!t.quiesce(500, 9999));
}

#[test]
fn tracker_quiescent_moves_on_change_only() {
    let mut t = Tracker::from_existing("settled", "settled", 1000);
    t.update("settled", 2000);
    assert!(t.is_quiescent());
    t.update("edited", 3000);
    assert!(t.is_vivacious());
}

#[test]
fn crawl_resolves_absolute_and_relative_links() {
    let p = pad(
        "doc1",
        "See [a](https://pad.example/doc2) and [b](doc3#section) for more.",
    );
    let urls = p.crawl().unwrap();
    assert_eq!(
        urls,
        vec![
            "https://pad.example/doc2".to_string(),
            "https://pad.example/doc3".to_string(),
        ]
    );
}

#[test]
fn crawl_strips_fragments() {
    let p = pad("doc1", "[top](https://pad.example/doc2#top)");
    assert_eq!(p.crawl().unwrap(), vec!["https://pad.example/doc2".to_string()]);
}

#[test]
fn crawl_without_links_yields_nothing() {
    let p = pad("doc1", "plain *markdown* text, no links here");
    assert_eq!(p.crawl().unwrap(), Vec::<String>::new());
}

#[test]
fn crawl_fails_when_a_target_cannot_resolve() {
    let p = pad("doc1", "[x](https://pad.example:99999999/x)");
    assert!(p.crawl().is_err());
}

#[test]
fn frontier_seeds_resolve_and_deduplicate() {
    let seeds = vec![
        "https://pad.example/doc1".to_string(),
        "https://pad.example/doc1".to_string(),
    ];
    let f = Frontier::from_seeds(&servers(), &seeds).unwrap();
    assert_eq!(f.known_count(), 1);
}

#[test]
fn frontier_rejects_a_bad_seed() {
    let seeds = vec![
        "https://pad.example/doc1".to_string(),
        "https://other.example/doc3".to_string(),
    ];
    match Frontier::from_seeds(&servers(), &seeds) {
        Ok(_) => panic!("a seed outside the allow-set must be rejected"),
        Err(at) => assert_eq!(at, 1),
    }
}

#[test]
fn frontier_queue_is_first_in_first_out() {
    let seeds = vec![
        "https://pad.example/doc1".to_string(),
        "https://pad.example/doc2".to_string(),
    ];
    let mut f = Frontier::from_seeds(&servers(), &seeds).unwrap();
    f.begin_cycle();
    assert_eq!(f.next_link().unwrap().name, "doc1");
    assert_eq!(f.next_link().unwrap().name, "doc2");
    assert!(f.next_link().is_none());
}

#[test]
fn frontier_absorbs_new_links_once() {
    let seeds = vec!["https://pad.example/doc1".to_string()];
    let mut f = Frontier::from_seeds(&servers(), &seeds).unwrap();
    f.begin_cycle();
    assert!(f.absorb_url(&servers(), "https://pad.example/doc2"));
    assert!(!f.absorb_url(&servers(), "https://pad.example/doc2"));
    assert_eq!(f.known_count(), 2);
}

#[test]
fn frontier_drops_links_outside_allowed_servers() {
    let seeds = vec!["https://pad.example/doc1".to_string()];
    let mut f = Frontier::from_seeds(&servers(), &seeds).unwrap();
    f.begin_cycle();
    assert!(!f.absorb_url(&servers(), "https://other.example/doc3"));
    assert_eq!(f.known_count(), 1);
}

#[test]
fn settled_content_never_notifies() {
    // A pad whose persisted snapshot equals its content, fetched twice a whole
    // cool-down apart, fires no settle event.
    let seeds = vec!["https://pad.example/doc1".to_string()];
    let mut f = Frontier::from_seeds(&servers(), &seeds).unwrap();
    let d1 = doc("doc1");
    let content = "stable notes".to_string();

    f.begin_cycle();
    f.next_link().unwrap();
    f.observe(&d1, Some(&content), "stable notes", 1000);
    assert!(!f.check_settled(&d1, 500, 1000));

    f.begin_cycle();
    f.next_link().unwrap();
    f.observe(&d1, None, "stable notes", 1600);
    assert!(!f.check_settled(&d1, 500, 1600));
}

#[test]
fn one_change_notifies_exactly_once() {
    // The content changes once between cycles, then stays constant: exactly one
    // settle event fires, at the first cycle past the cool-down.
    let seeds = vec!["https://pad.example/doc1".to_string()];
    let mut f = Frontier::from_seeds(&servers(), &seeds).unwrap();
    let d1 = doc("doc1");
    let persisted = "version one".to_string();
    let mut settles = Vec::new();

    let cycles: Vec<(&str, u64)> =
        vec![("version one", 1000), ("version two", 2000), ("version two", 3000), ("version two", 4000)];
    for (content, now) in cycles {
        f.begin_cycle();
        f.next_link().unwrap();
        let prior = if f.has_tracker(&d1) { None } else { Some(&persisted) };
        f.observe(&d1, prior, content, now);
        settles.push(f.check_settled(&d1, 500, now));
    }
    assert_eq!(settles, vec![false, false, true, false]);
}

#[test]
fn discovered_links_are_visited_in_the_same_cycle() {
    let seeds = vec!["https://pad.example/doc1".to_string()];
    let mut f = Frontier::from_seeds(&servers(), &seeds).unwrap();
    let pages = vec![
        (doc("doc1"), "go to [two](https://pad.example/doc2)".to_string()),
        (doc("doc2"), "no links".to_string()),
    ];
    let visited = f.crawl_pass(&servers(), &pages);
    assert_eq!(visited.len(), 2);
    assert_eq!(visited[0].name, "doc1");
    assert_eq!(visited[1].name, "doc2");
    assert_eq!(f.known_count(), 2);
}

#[test]
fn cyclic_link_graphs_visit_each_link_once() {
    let seeds = vec!["https://pad.example/doc1".to_string()];
    let mut f = Frontier::from_seeds(&servers(), &seeds).unwrap();
    let pages = vec![
        (doc("doc1"), "see [two](doc2)".to_string()),
        (doc("doc2"), "back to [one](doc1) and [two](doc2)".to_string()),
    ];
    let visited = f.crawl_pass(&servers(), &pages);
    assert_eq!(visited.len(), 2);
    assert_eq!(f.known_count(), 2);
}

#[test]
fn links_outside_the_allow_set_are_never_visited() {
    let seeds = vec!["https://pad.example/doc1".to_string()];
    let mut f = Frontier::from_seeds(&servers(), &seeds).unwrap();
    let pages = vec![
        (doc("doc1"), "see [out](https://other.example/doc3)".to_string()),
        (
            Link::new("other.example".to_string(), "doc3".to_string()),
            "should never be reached".to_string(),
        ),
    ];
    let visited = f.crawl_pass(&servers(), &pages);
    assert_eq!(visited.len(), 1);
    assert_eq!(f.known_count(), 1);
}

#[test]
fn one_bad_pad_never_aborts_the_pass() {
    let seeds = vec![
        "https://pad.example/bad".to_string(),
        "https://pad.example/doc1".to_string(),
    ];
    let mut f = Frontier::from_seeds(&servers(), &seeds).unwrap();
    let pages = vec![
        (doc("bad"), "[x](https://pad.example:99999999/x)".to_string()),
        (doc("doc1"), "see [two](doc2)".to_string()),
        (doc("doc2"), "no links".to_string()),
    ];
    let visited = f.crawl_pass(&servers(), &pages);
    assert_eq!(visited.len(), 3);
    assert_eq!(f.known_count(), 3);
}

#[test]
fn repo_lays_snapshots_out_per_server_and_name() {
    let repo = Repo::new("store".to_string());
    assert_eq!(repo.path_for(&doc("doc1")), "store/pad.example/doc1");
    assert_eq!(repo.dir_for(&doc("doc1")), "store/pad.example");
}
