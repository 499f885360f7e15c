use crawler::policy::DomainPolicy;
use crawler::registry::RegisterOutcome;
use crawler::report::report;
use crawler::links::{ParseError, MAX_PAGE_BYTES};
use crawler::scheduler::{expand, Branch, Crawl, CrawlUnit, Expansion, FetchError, PageOutcome, Step};
use std::collections::HashMap;

/// A page that links to `links`, in this order.
fn page(links: &[&str]) -> String {
    let mut html = String::from("<html><body>");
    for l in links {
        html.push_str(&format!("<a href=\"{}\">link</a>", l));
    }
    html.push_str("</body></html>");
    html
}

/// A web of pages by URL. A URL that is not in it cannot be fetched.
fn web(pages: &[(&str, &[&str])]) -> HashMap<String, String> {
    pages.iter().map(|(url, links)| (url.to_string(), page(links))).collect()
}

fn fetch(web: &HashMap<String, String>, url: &str) -> Result<String, FetchError> {
    match web.get(url) {
        Some(body) => Ok(body.clone()),
        None => Err(FetchError { message: format!("no route to {}", url) }),
    }
}

fn free_policy() -> DomainPolicy {
    DomainPolicy::new(Vec::new(), Vec::new(), true)
}

/// Drives a crawl to its end. Pages come back oldest first, and only when
/// no further unit can be taken up. Returns the targets in the order in
/// which their pages were asked for.
fn drive(crawl: &mut Crawl, web: &HashMap<String, String>, cap: usize, workers: usize) -> Vec<String> {
    let mut asked = Vec::new();
    let mut outstanding: Vec<CrawlUnit> = Vec::new();
    let mut clock = 0u64;
    loop {
        clock += 1;
        let step = crawl.next_step(clock);
        assert!(crawl.registry().len() <= cap);
        assert!(crawl.in_flight_len() <= workers);
        assert_eq!(crawl.in_flight_len(), outstanding.len() + if matches!(step, Step::Fetch(_)) { 1 } else { 0 });
        match step {
            Step::Fetch(unit) => {
                asked.push(unit.target.clone());
                outstanding.push(unit);
            }
            Step::Skipped(_, outcome) => {
                assert!(!matches!(outcome, RegisterOutcome::Admitted(_)));
            }
            Step::Wait => {
                assert!(!outstanding.is_empty());
                let unit = outstanding.remove(0);
                let outcome = crawl.page_fetched(&unit.target, fetch(web, &unit.target));
                assert!(!matches!(outcome, PageOutcome::NotInFlight));
            }
            Step::Done => {
                assert!(outstanding.is_empty());
                assert!(crawl.is_done());
                return asked;
            }
        }
        assert!(clock < 100_000, "the crawl does not end");
    }
}

fn recorded_urls(crawl: &Crawl) -> Vec<String> {
    (0..crawl.registry().len()).map(|i| crawl.registry().record_at(i).url.clone()).collect()
}

#[test]
fn crawl_of_a_large_graph_stops_at_the_cap() {
    // every page links to the next two, without end in sight of the cap
    let mut pages: HashMap<String, String> = HashMap::new();
    for i in 0..200 {
        let a = format!("https://site.org/p{}", 2 * i + 1);
        let b = format!("https://site.org/p{}", 2 * i + 2);
        pages.insert(format!("https://site.org/p{}", i), page(&[&a, &b]));
    }
    for (cap, workers) in [(1usize, 1usize), (7, 1), (25, 5), (25, 1), (3, 8)] {
        let mut crawl = Crawl::new("https://site.org/p0".to_string(), free_policy(), workers, cap);
        let asked = drive(&mut crawl, &pages, cap, workers);
        assert_eq!(crawl.registry().len(), cap);
        assert_eq!(asked.len(), cap);
        assert_eq!(report(crawl.registry(), 0, 1).lines.len(), cap);
    }
}

#[test]
fn crawl_of_a_small_graph_visits_all_of_it() {
    let pages = web(&[
        ("https://a.org/", &["https://a.org/x", "https://a.org/y"]),
        ("https://a.org/x", &["https://a.org/", "https://a.org/y"]),
        ("https://a.org/y", &["https://a.org/x"]),
    ]);
    let mut crawl = Crawl::new("https://a.org/".to_string(), free_policy(), 2, 25);
    drive(&mut crawl, &pages, 25, 2);
    assert_eq!(recorded_urls(&crawl), vec!["https://a.org/", "https://a.org/x", "https://a.org/y"]);
}

#[test]
fn seed_without_eligible_links_ends_after_one_visit() {
    let pages = web(&[(
        "https://a.org/",
        &["/relative", "https://elsewhere.org/", "mailto:x@a.org", "#top"],
    )]);
    let policy = DomainPolicy::new(vec!["a.org".to_string()], Vec::new(), false);
    let mut crawl = Crawl::new("https://a.org/".to_string(), policy, 5, 25);
    let asked = drive(&mut crawl, &pages, 25, 5);
    assert_eq!(asked, vec!["https://a.org/"]);
    assert_eq!(crawl.registry().len(), 1);
    let no_links = web(&[("https://b.org/", &[])]);
    let mut lonely = Crawl::new("https://b.org/".to_string(), free_policy(), 5, 25);
    drive(&mut lonely, &no_links, 25, 5);
    assert_eq!(lonely.registry().len(), 1);
}

#[test]
fn failed_fetch_of_one_child_leaves_the_others() {
    // the page of b cannot be fetched; a and c can, and lead on
    let pages = web(&[
        ("https://s.org/", &["https://s.org/a", "https://s.org/b", "https://s.org/c"]),
        ("https://s.org/a", &["https://s.org/a1"]),
        ("https://s.org/c", &["https://s.org/c1"]),
        ("https://s.org/a1", &[]),
        ("https://s.org/c1", &[]),
    ]);
    for workers in [1usize, 3] {
        let mut crawl = Crawl::new("https://s.org/".to_string(), free_policy(), workers, 25);
        drive(&mut crawl, &pages, 25, workers);
        let urls = recorded_urls(&crawl);
        for visited in ["https://s.org/a", "https://s.org/c", "https://s.org/a1", "https://s.org/c1"] {
            assert!(urls.contains(&visited.to_string()));
        }
        // b was admitted before its page was asked for; nothing was reached through it
        assert_eq!(urls.len(), 6);
        for i in 0..crawl.registry().len() {
            assert_ne!(crawl.registry().record_at(i).referrer, "https://s.org/b");
        }
        let lines = report(crawl.registry(), 0, 0).lines;
        assert!(lines.iter().any(|l| l.url == "https://s.org/a" && l.referrer == "https://s.org/"));
        assert!(lines.iter().any(|l| l.url == "https://s.org/c" && l.referrer == "https://s.org/"));
    }
}

#[test]
fn failed_fetch_changes_nothing_but_the_worker() {
    let mut crawl = Crawl::new("https://s.org/".to_string(), free_policy(), 1, 5);
    let unit = match crawl.next_step(1) {
        Step::Fetch(unit) => unit,
        other => panic!("unexpected step {:?}", other),
    };
    assert_eq!(crawl.in_flight_len(), 1);
    let outcome = crawl.page_fetched(&unit.target, Err(FetchError { message: "timeout".to_string() }));
    assert!(matches!(outcome, PageOutcome::FetchFailed));
    assert_eq!(crawl.in_flight_len(), 0);
    assert_eq!(crawl.pending_len(), 0);
    assert_eq!(crawl.registry().len(), 1);
    assert!(matches!(crawl.next_step(2), Step::Done));
}

#[test]
fn every_referrer_is_the_page_that_held_the_link() {
    let pages = web(&[
        ("https://s.org/", &["https://s.org/a", "https://s.org/b"]),
        ("https://s.org/a", &["https://s.org/a1", "https://s.org/b"]),
        ("https://s.org/b", &["https://s.org/b1"]),
        ("https://s.org/a1", &["https://s.org/"]),
        ("https://s.org/b1", &[]),
    ]);
    let mut crawl = Crawl::new("https://s.org/".to_string(), free_policy(), 1, 25);
    drive(&mut crawl, &pages, 25, 1);
    let r = crawl.registry();
    assert_eq!(r.record_at(0).url, "https://s.org/");
    assert_eq!(r.record_at(0).referrer, "STARTING_URL");
    let mut found = HashMap::new();
    for i in 0..r.len() {
        found.insert(r.record_at(i).url.clone(), r.record_at(i).referrer.clone());
    }
    assert_eq!(found["https://s.org/a"], "https://s.org/");
    assert_eq!(found["https://s.org/b"], "https://s.org/a");
    assert_eq!(found["https://s.org/a1"], "https://s.org/a");
    assert_eq!(found["https://s.org/b1"], "https://s.org/b");
    for i in 1..r.len() {
        let referrer = &r.record_at(i).referrer;
        assert!((0..i).any(|j| &r.record_at(j).url == referrer));
        assert!(pages[referrer].contains(&format!("href=\"{}\"", r.record_at(i).url)));
    }
}

#[test]
fn one_worker_visits_depth_first_in_document_order() {
    let pages = web(&[
        ("https://s.org/", &["https://s.org/a", "https://s.org/b", "https://s.org/c"]),
        ("https://s.org/a", &["https://s.org/a1", "https://s.org/a2"]),
        ("https://s.org/b", &["https://s.org/b1"]),
    ]);
    let mut crawl = Crawl::new("https://s.org/".to_string(), free_policy(), 1, 25);
    let asked = drive(&mut crawl, &pages, 25, 1);
    assert_eq!(
        asked,
        vec![
            "https://s.org/",
            "https://s.org/a",
            "https://s.org/a1",
            "https://s.org/a2",
            "https://s.org/b",
            "https://s.org/b1",
            "https://s.org/c",
        ]
    );
}

#[test]
fn urls_with_one_key_are_visited_once() {
    let pages = web(&[(
        "https://www.s.org/",
        &["http://s.org", "https://s.org/?again=1", "https://s.org/x/", "http://www.s.org/x?y"],
    )]);
    let mut crawl = Crawl::new("https://www.s.org/".to_string(), free_policy(), 1, 25);
    let asked = drive(&mut crawl, &pages, 25, 1);
    assert_eq!(asked, vec!["https://www.s.org/", "https://s.org/x/"]);
    assert!(crawl.registry().contains(&"s.org".to_string()));
    assert!(crawl.registry().contains(&"s.org/x".to_string()));
}

#[test]
fn unit_with_a_known_key_is_skipped() {
    let mut crawl = Crawl::new("https://s.org/".to_string(), free_policy(), 1, 5);
    let seed = match crawl.next_step(1) {
        Step::Fetch(unit) => unit,
        other => panic!("unexpected step {:?}", other),
    };
    let body = page(&["https://s.org/", "https://s.org/a"]);
    let outcome = crawl.page_fetched(&seed.target, Ok(body));
    assert!(matches!(outcome, PageOutcome::Expanded { followed: 2, .. }));
    match crawl.next_step(2) {
        Step::Skipped(unit, outcome) => {
            assert_eq!(unit.target, "https://s.org/");
            assert_eq!(unit.referrer, "https://s.org/");
            assert_eq!(outcome, RegisterOutcome::AlreadyVisited);
        }
        other => panic!("unexpected step {:?}", other),
    }
    assert!(matches!(crawl.next_step(3), Step::Fetch(_)));
}

#[test]
fn units_after_the_cap_are_skipped() {
    let mut crawl = Crawl::new("https://s.org/".to_string(), free_policy(), 2, 1);
    let seed = match crawl.next_step(1) {
        Step::Fetch(unit) => unit,
        other => panic!("unexpected step {:?}", other),
    };
    crawl.page_fetched(&seed.target, Ok(page(&["https://s.org/a", "https://s.org/"])));
    for _ in 0..2 {
        match crawl.next_step(2) {
            Step::Skipped(_, outcome) => assert_eq!(outcome, RegisterOutcome::CapReached),
            other => panic!("unexpected step {:?}", other),
        }
    }
    assert!(matches!(crawl.next_step(3), Step::Done));
    assert_eq!(crawl.registry().len(), 1);
}

#[test]
fn cap_of_zero_visits_nothing() {
    let mut crawl = Crawl::new("https://s.org/".to_string(), free_policy(), 3, 0);
    assert!(matches!(crawl.next_step(1), Step::Skipped(_, RegisterOutcome::CapReached)));
    assert!(matches!(crawl.next_step(2), Step::Done));
    assert_eq!(crawl.registry().len(), 0);
}

#[test]
fn no_worker_no_visit() {
    let mut crawl = Crawl::new("https://s.org/".to_string(), free_policy(), 0, 5);
    assert!(crawl.is_done());
    assert!(matches!(crawl.next_step(1), Step::Done));
    assert_eq!(crawl.registry().len(), 0);
    assert_eq!(crawl.pending_len(), 1);
    assert_eq!(crawl.workers(), 0);
}

#[test]
fn never_more_pages_in_flight_than_workers() {
    let links: Vec<String> = (0..10).map(|i| format!("https://s.org/{}", i)).collect();
    let refs: Vec<&str> = links.iter().map(|s| s.as_str()).collect();
    let mut crawl = Crawl::new("https://s.org/".to_string(), free_policy(), 3, 25);
    let seed = match crawl.next_step(0) {
        Step::Fetch(unit) => unit,
        other => panic!("unexpected step {:?}", other),
    };
    // while the seed is being fetched nothing waits
    assert!(matches!(crawl.next_step(0), Step::Wait));
    crawl.page_fetched(&seed.target, Ok(page(&refs)));
    let mut asked = Vec::new();
    for t in 1..=3 {
        match crawl.next_step(t) {
            Step::Fetch(unit) => asked.push(unit.target),
            other => panic!("unexpected step {:?}", other),
        }
    }
    assert_eq!(asked, vec!["https://s.org/0", "https://s.org/1", "https://s.org/2"]);
    // all workers are busy: units wait, none is taken up
    for t in 4..8 {
        assert!(matches!(crawl.next_step(t), Step::Wait));
        assert_eq!(crawl.in_flight_len(), 3);
        assert_eq!(crawl.pending_len(), 7);
        assert_eq!(crawl.registry().len(), 4);
    }
    crawl.page_fetched(&asked[1], Ok(page(&[])));
    assert_eq!(crawl.in_flight_len(), 2);
    assert!(matches!(crawl.next_step(9), Step::Fetch(_)));
    assert!(matches!(crawl.next_step(10), Step::Wait));
}

#[test]
fn page_that_was_not_asked_for_changes_nothing() {
    let mut crawl = Crawl::new("https://s.org/".to_string(), free_policy(), 2, 5);
    let stray = "https://s.org/stray".to_string();
    let outcome = crawl.page_fetched(&stray, Ok(page(&["https://s.org/a"])));
    assert!(matches!(outcome, PageOutcome::NotInFlight));
    assert_eq!(crawl.pending_len(), 1);
    assert_eq!(crawl.complete(&stray, Some(vec!["https://s.org/a".to_string()])), Branch::NotInFlight);
    let seed = match crawl.next_step(1) {
        Step::Fetch(unit) => unit,
        other => panic!("unexpected step {:?}", other),
    };
    assert!(matches!(crawl.page_fetched(&seed.target, Ok(page(&[]))), PageOutcome::Expanded { followed: 0, .. }));
    // the same page a second time is no longer expected
    assert!(matches!(crawl.page_fetched(&seed.target, Ok(page(&["https://s.org/a"]))), PageOutcome::NotInFlight));
    assert_eq!(crawl.pending_len(), 0);
}

#[test]
fn rejected_links_are_told() {
    let policy = DomainPolicy::new(vec!["s.org".to_string()], vec!["bad.org".to_string()], false);
    let mut crawl = Crawl::new("https://s.org/".to_string(), policy, 1, 5);
    assert!(crawl.policy().eligible("https://s.org/x"));
    let seed = match crawl.next_step(1) {
        Step::Fetch(unit) => unit,
        other => panic!("unexpected step {:?}", other),
    };
    let body = page(&["https://s.org/a", "https://bad.org/", "/rel", "https://s.org/b", "https://other.org/"]);
    match crawl.page_fetched(&seed.target, Ok(body)) {
        PageOutcome::Expanded { followed, rejected } => {
            assert_eq!(followed, 2);
            assert_eq!(rejected, vec!["https://bad.org/", "/rel", "https://other.org/"]);
        }
        other => panic!("unexpected outcome {:?}", other),
    }
    assert_eq!(crawl.pending_len(), 2);
}

#[test]
fn links_are_stacked_first_on_top() {
    let mut crawl = Crawl::new("https://s.org/".to_string(), free_policy(), 1, 5);
    let seed = match crawl.next_step(1) {
        Step::Fetch(unit) => unit,
        other => panic!("unexpected step {:?}", other),
    };
    let links = vec!["https://s.org/1".to_string(), "https://s.org/2".to_string()];
    assert_eq!(crawl.complete(&seed.target, Some(links)), Branch::Expanded(2));
    match crawl.next_step(2) {
        Step::Fetch(unit) => {
            assert_eq!(unit.target, "https://s.org/1");
            assert_eq!(unit.referrer, "https://s.org/");
            assert_eq!(crawl.complete(&unit.target, None), Branch::Abandoned);
            let copy = unit.duplicate();
            assert_eq!(copy.target, unit.target);
            assert_eq!(copy.referrer, unit.referrer);
        }
        other => panic!("unexpected step {:?}", other),
    }
    match crawl.next_step(3) {
        Step::Fetch(unit) => assert_eq!(unit.target, "https://s.org/2"),
        other => panic!("unexpected step {:?}", other),
    }
}

#[test]
fn body_that_is_no_markup_has_no_links() {
    let mut crawl = Crawl::new("https://s.org/".to_string(), free_policy(), 1, 5);
    let seed = match crawl.next_step(1) {
        Step::Fetch(unit) => unit,
        other => panic!("unexpected step {:?}", other),
    };
    let outcome = crawl.page_fetched(&seed.target, Ok("\u{0}\u{1} binary".to_string()));
    assert!(matches!(outcome, PageOutcome::Expanded { followed: 0, .. }));
    assert!(matches!(crawl.next_step(2), Step::Done));
}

#[test]
fn page_that_is_too_long_ends_its_branch() {
    let mut crawl = Crawl::new("https://s.org/".to_string(), free_policy(), 1, 5);
    let seed = match crawl.next_step(1) {
        Step::Fetch(unit) => unit,
        other => panic!("unexpected step {:?}", other),
    };
    let mut body = page(&["https://s.org/a"]);
    body.push_str(&" ".repeat(MAX_PAGE_BYTES));
    let outcome = crawl.page_fetched(&seed.target, Ok(body));
    assert!(matches!(outcome, PageOutcome::ParseFailed(ParseError::TooLong)));
    assert_eq!(crawl.pending_len(), 0);
    assert_eq!(crawl.in_flight_len(), 0);
    assert_eq!(crawl.registry().len(), 1);
    assert!(matches!(crawl.next_step(2), Step::Done));
}

#[test]
fn page_is_read_without_the_crawl() {
    let policy = DomainPolicy::new(vec!["s.org".to_string()], Vec::new(), false);
    let body = page(&["https://s.org/a", "https://t.org/", "https://s.org/b"]);
    match expand(&policy, Ok(body)) {
        Expansion::Links { eligible, rejected } => {
            assert_eq!(eligible, vec!["https://s.org/a", "https://s.org/b"]);
            assert_eq!(rejected, vec!["https://t.org/"]);
        }
        other => panic!("unexpected expansion {:?}", other),
    }
    let failed = expand(&policy, Err(FetchError { message: "refused".to_string() }));
    assert!(matches!(failed, Expansion::FetchFailed));
}

#[test]
fn page_read_elsewhere_is_taken_back() {
    let mut crawl = Crawl::new("https://s.org/".to_string(), free_policy(), 2, 5);
    let seed = match crawl.next_step(1) {
        Step::Fetch(unit) => unit,
        other => panic!("unexpected step {:?}", other),
    };
    let read = expand(&free_policy(), Ok(page(&["https://s.org/a", "/rel"])));
    match crawl.page_expanded(&seed.target, read) {
        PageOutcome::Expanded { followed, rejected } => {
            assert_eq!(followed, 1);
            assert_eq!(rejected, vec!["/rel"]);
        }
        other => panic!("unexpected outcome {:?}", other),
    }
    assert_eq!(crawl.pending_len(), 1);
    let a = match crawl.next_step(2) {
        Step::Fetch(unit) => unit,
        other => panic!("unexpected step {:?}", other),
    };
    assert!(matches!(crawl.page_expanded(&a.target, Expansion::ParseFailed(ParseError::Selector)), PageOutcome::ParseFailed(ParseError::Selector)));
    assert!(matches!(crawl.page_expanded(&a.target, Expansion::FetchFailed), PageOutcome::NotInFlight));
    assert!(matches!(crawl.next_step(3), Step::Done));
}

#[test]
fn crawl_that_ends_short_of_the_cap_has_left_no_link_behind() {
    let pages = web(&[
        ("https://s.org/", &["https://s.org/a", "https://s.org/b", "https://t.org/"]),
        ("https://s.org/a", &["https://s.org/b", "https://s.org/c"]),
        ("https://s.org/b", &["https://s.org/"]),
        ("https://s.org/c", &[]),
        ("https://t.org/", &["https://t.org/more"]),
    ]);
    let policy = DomainPolicy::new(vec!["s.org".to_string()], Vec::new(), false);
    let mut crawl = Crawl::new("https://s.org/".to_string(), policy, 2, 25);
    drive(&mut crawl, &pages, 25, 2);
    assert!(crawl.registry().len() < 25);
    let r = crawl.registry();
    for i in 0..r.len() {
        let url = r.record_at(i).url.clone();
        let body = fetch(&pages, &url);
        if let Expansion::Links { eligible, .. } = expand(crawl.policy(), body) {
            for link in eligible {
                assert!(r.contains(&crawler::normalize::normalize(&link)));
            }
        }
    }
}

#[test]
fn pages_under_one_key_that_differ_can_hide_links() {
    // two URLs with one key; only the page of the second leads on
    let pages = web(&[
        ("https://s.org/", &["http://s.org/x", "https://s.org/x?v=2"]),
        ("http://s.org/x", &[]),
        ("https://s.org/x?v=2", &["https://s.org/1", "https://s.org/2", "https://s.org/3"]),
        ("https://s.org/1", &[]),
        ("https://s.org/2", &[]),
        ("https://s.org/3", &[]),
    ]);
    let mut crawl = Crawl::new("https://s.org/".to_string(), free_policy(), 1, 4);
    let asked = drive(&mut crawl, &pages, 4, 1);
    assert_eq!(asked, vec!["https://s.org/", "http://s.org/x"]);
    assert_eq!(crawl.registry().len(), 2);
}
