use crawler::coordinator::Coordinator;
use crawler::fetch::{get_fake_fetcher, FakeFetcher, Fetcher};
use crawler::ledger::Ledger;
use crawler::shared::discovered;

fn urls(names: &[&str]) -> Vec<String> {
    names.iter().map(|s| s.to_string()).collect()
}

#[test]
fn a_new_ledger_is_empty() {
    let ledger = Ledger::new();
    assert!(ledger.is_empty());
    assert_eq!(ledger.len(), 0);
    assert!(!ledger.contains("a"));
    assert!(ledger.nodes().is_empty());
}

#[test]
fn claim_reports_a_node_as_new_exactly_once() {
    let mut ledger = Ledger::new();
    let reports: Vec<bool> = ["a", "b", "a", "c", "b", "a"]
        .iter()
        .map(|u| ledger.claim(u))
        .collect();
    assert_eq!(reports, vec![true, true, false, true, false, false]);
    assert_eq!(ledger.len(), 3);
    assert!(!ledger.is_empty());
    assert!(ledger.contains("a") && ledger.contains("b") && ledger.contains("c"));
    assert!(!ledger.contains("d"));
    assert_eq!(ledger.nodes(), &urls(&["a", "b", "c"]));
}

#[test]
fn claim_tells_nodes_apart_by_every_character() {
    let mut ledger = Ledger::new();
    assert!(ledger.claim("https://example.com/"));
    assert!(ledger.claim("https://example.com"));
    assert!(ledger.claim(""));
    assert!(!ledger.claim(""));
    assert_eq!(ledger.len(), 3);
}

#[test]
fn fake_fetcher_returns_the_canned_links() {
    let fetcher = get_fake_fetcher();
    assert_eq!(
        fetcher.fetch("https://example.com/"),
        Ok(urls(&["https://example.com/page1", "https://example.com/page2"]))
    );
    assert_eq!(
        fetcher.fetch("https://example.com/page1"),
        Ok(urls(&["https://example.com/", "https://example.com/page3"]))
    );
    assert_eq!(
        fetcher.fetch("https://example.com/page2"),
        Ok(urls(&["https://example.com/"]))
    );
    assert_eq!(
        fetcher.fetch("https://example.com/page3"),
        Ok(urls(&["https://example.com/page1", "https://example.com/page4"]))
    );
    assert_eq!(fetcher.fetch("https://example.com/page4"), Ok(vec![]));
}

#[test]
fn fake_fetcher_fails_for_a_node_that_it_lacks() {
    let fetcher = get_fake_fetcher();
    assert_eq!(
        fetcher.fetch("https://nonexistent.com/"),
        Err("not found: https://nonexistent.com/".to_string())
    );
    assert_eq!(FakeFetcher::new().fetch(""), Err("not found: ".to_string()));
}

#[test]
fn fake_fetcher_returns_the_canned_failure() {
    let mut fetcher = FakeFetcher::new();
    assert!(!fetcher.contains("bad"));
    fetcher.insert("bad".to_string(), Err("permanent failure".to_string()));
    assert_eq!(fetcher.fetch("bad"), Err("permanent failure".to_string()));
    assert!(fetcher.contains("bad"));
    assert!(!fetcher.contains("good"));
}

#[test]
fn fake_fetcher_keeps_the_later_of_two_results() {
    let mut fetcher = FakeFetcher::new();
    fetcher.insert("a".to_string(), Ok(urls(&["b"])));
    fetcher.insert("a".to_string(), Ok(urls(&["c", "c"])));
    assert_eq!(fetcher.fetch("a"), Ok(urls(&["c", "c"])));
    assert_eq!(fetcher.fetch("a"), Ok(urls(&["c", "c"])));
}

#[test]
fn discovered_gives_the_links_of_a_success_and_none_of_a_failure() {
    assert_eq!(discovered(Ok(urls(&["a", "b", "a"]))), urls(&["a", "b", "a"]));
    assert_eq!(discovered(Ok(vec![])), Vec::<String>::new());
    assert_eq!(discovered(Err("permanent failure".to_string())), Vec::<String>::new());
}

#[test]
fn coordinator_starts_with_one_outstanding_fetch() {
    let coordinator = Coordinator::start("a");
    assert_eq!(coordinator.outstanding_fetches(), 1);
    assert!(!coordinator.is_done());
    assert_eq!(coordinator.fetched().nodes(), &urls(&["a"]));
}

#[test]
fn coordinator_hands_out_each_new_neighbor_once() {
    let mut coordinator = Coordinator::start("a");
    let dispatch = coordinator.absorb(Ok(urls(&["b", "a", "c", "b", "c", "d"])));
    assert_eq!(dispatch, urls(&["b", "c", "d"]));
    assert_eq!(coordinator.outstanding_fetches(), 3);
    assert_eq!(coordinator.fetched().nodes(), &urls(&["a", "b", "c", "d"]));

    let dispatch = coordinator.absorb(Ok(urls(&["d", "e"])));
    assert_eq!(dispatch, urls(&["e"]));
    assert_eq!(coordinator.outstanding_fetches(), 3);

    let dispatch = coordinator.absorb(Err("permanent failure".to_string()));
    assert!(dispatch.is_empty());
    assert_eq!(coordinator.outstanding_fetches(), 2);

    assert!(coordinator.absorb(Ok(vec![])).is_empty());
    assert!(!coordinator.is_done());
    assert!(coordinator.absorb(Ok(urls(&["a", "e"]))).is_empty());
    assert_eq!(coordinator.outstanding_fetches(), 0);
    assert!(coordinator.is_done());
    assert_eq!(
        coordinator.into_fetched().nodes(),
        &urls(&["a", "b", "c", "d", "e"])
    );
}

#[test]
fn coordinator_is_done_when_the_start_has_no_neighbors() {
    let mut coordinator = Coordinator::start("a");
    assert!(coordinator.absorb(Ok(vec![])).is_empty());
    assert!(coordinator.is_done());
    assert_eq!(coordinator.into_fetched().nodes(), &urls(&["a"]));
}

#[test]
fn coordinator_is_done_when_the_start_fails() {
    let mut coordinator = Coordinator::start("https://nonexistent.com/");
    let found = get_fake_fetcher().fetch("https://nonexistent.com/");
    assert!(coordinator.absorb(found).is_empty());
    assert!(coordinator.is_done());
    assert_eq!(coordinator.fetched().len(), 1);
    assert!(coordinator.fetched().contains("https://nonexistent.com/"));
}

#[test]
fn a_function_fetches() {
    let fetcher = crawler::fetch::FetchFn::new(|url: String| {
        if url.len() < 3 {
            Ok(vec![format!("{url}a"), format!("{url}b")])
        } else {
            Err(format!("too long: {url}"))
        }
    });
    assert_eq!(fetcher.fetch(""), Ok(urls(&["a", "b"])));
    assert_eq!(fetcher.fetch("ab"), Ok(urls(&["aba", "abb"])));
    assert_eq!(fetcher.fetch("abc"), Err("too long: abc".to_string()));
}
