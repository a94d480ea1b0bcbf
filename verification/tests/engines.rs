use crawler::coordinator::Coordinator;
use crawler::fetch::{get_fake_fetcher, FakeFetcher, Fetcher};
use crawler::ledger::Ledger;
use crawler::serial::serial_crawler;
use crawler::shared::discovered;
use std::collections::{HashSet, VecDeque};
use std::sync::{mpsc, Arc, Mutex};

/// The claimed nodes of a ledger as a set.
fn as_set(ledger: &Ledger) -> HashSet<String> {
    ledger.nodes().iter().cloned().collect()
}

/// The shared-state engine with its tasks run on one thread, the task
/// spawned last first: every task claims under the lock and fetches outside
/// of it.
fn concurrent_mutex_crawler<F: Fetcher>(url: String, fetcher: Arc<F>, fetched: Arc<Mutex<Ledger>>) {
    let mut tasks = vec![url];
    while let Some(url) = tasks.pop() {
        {
            let mut cache = fetched.lock().unwrap();
            if !cache.claim(&url) {
                continue;
            }
        }
        for url in discovered(fetcher.fetch(&url)) {
            tasks.push(url);
        }
    }
}

/// The coordinator engine with its workers run on one thread: every worker
/// sends its result over the one channel, and the coordinator receives
/// while fetches are outstanding.
fn concurrent_channel_crawler<F: Fetcher>(url: String, fetcher: Arc<F>) -> HashSet<String> {
    let (tx, rx) = mpsc::channel::<Result<Vec<String>, String>>();
    let mut coordinator = Coordinator::start(&url);
    tx.send(fetcher.fetch(&url)).unwrap();
    while !coordinator.is_done() {
        let result = rx.recv().unwrap();
        for u in coordinator.absorb(result) {
            tx.send(fetcher.fetch(&u)).unwrap();
        }
    }
    as_set(&coordinator.into_fetched())
}

/// Helper function to get the set of all URLs we expect to be crawled.
fn get_expected_urls() -> HashSet<String> {
    [
        "https://example.com/",
        "https://example.com/page1",
        "https://example.com/page2",
        "https://example.com/page3",
        "https://example.com/page4",
    ]
    .iter()
    .map(|s| s.to_string())
    .collect()
}

#[test]
fn test_serial_crawler_happy_path() {
    let fetcher = get_fake_fetcher();
    let mut fetched = Ledger::new();
    serial_crawler("https://example.com/".to_string(), &fetcher, &mut fetched);

    let expected = get_expected_urls();
    assert_eq!(as_set(&fetched), expected);
}

#[test]
fn test_concurrent_mutex_crawler_happy_path() {
    let fetcher = Arc::new(get_fake_fetcher());
    let fetched_arc = Arc::new(Mutex::new(Ledger::new()));
    concurrent_mutex_crawler(
        "https://example.com/".to_string(),
        fetcher,
        Arc::clone(&fetched_arc),
    );

    let fetched_guard = fetched_arc.lock().unwrap();
    let expected = get_expected_urls();
    assert_eq!(as_set(&fetched_guard), expected);
}

#[test]
fn test_concurrent_channel_crawler_happy_path() {
    let fetcher = Arc::new(get_fake_fetcher());
    let fetched = concurrent_channel_crawler("https://example.com/".to_string(), fetcher);

    let expected = get_expected_urls();
    assert_eq!(fetched, expected);
}

#[test]
fn test_start_with_nonexistent_url() {
    let fetcher = get_fake_fetcher();
    let url = "https://nonexistent.com/".to_string();
    let expected: HashSet<String> = [url.clone()].iter().cloned().collect();

    // Serial
    let mut fetched_serial = Ledger::new();
    serial_crawler(url.clone(), &fetcher, &mut fetched_serial);
    assert_eq!(
        as_set(&fetched_serial),
        expected,
        "Serial crawler failed on non-existent URL"
    );

    // Mutex
    let fetcher_arc = Arc::new(get_fake_fetcher());
    let fetched_mutex = Arc::new(Mutex::new(Ledger::new()));
    concurrent_mutex_crawler(url.clone(), fetcher_arc.clone(), fetched_mutex.clone());
    assert_eq!(
        as_set(&fetched_mutex.lock().unwrap()),
        expected,
        "Mutex crawler failed on non-existent URL"
    );

    // Channel
    let fetched_channel = concurrent_channel_crawler(url.clone(), fetcher_arc);
    assert_eq!(
        fetched_channel, expected,
        "Channel crawler failed on non-existent URL"
    );
}

#[test]
fn test_single_url_no_links() {
    let mut fetcher = FakeFetcher::new();
    let url = "https://single.com/".to_string();
    fetcher.insert(url.clone(), Ok(vec![]));
    let expected: HashSet<String> = [url.clone()].iter().cloned().collect();

    // Serial
    let mut fetched_serial = Ledger::new();
    serial_crawler(url.clone(), &fetcher, &mut fetched_serial);
    assert_eq!(
        as_set(&fetched_serial),
        expected,
        "Serial crawler failed on single URL"
    );

    // Mutex
    let fetcher_arc = Arc::new(fetcher);
    let fetched_mutex = Arc::new(Mutex::new(Ledger::new()));
    concurrent_mutex_crawler(url.clone(), fetcher_arc.clone(), fetched_mutex.clone());
    assert_eq!(
        as_set(&fetched_mutex.lock().unwrap()),
        expected,
        "Mutex crawler failed on single URL"
    );

    // Channel
    let fetched_channel = concurrent_channel_crawler(url.clone(), fetcher_arc);
    assert_eq!(
        fetched_channel, expected,
        "Channel crawler failed on single URL"
    );
}

#[test]
fn test_crawler_with_fetch_error() {
    let mut fetcher = FakeFetcher::new();
    let start_url = "https://start.com/".to_string();
    let ok_url = "https://ok.com/".to_string();
    let bad_url = "https://bad.com/".to_string();
    fetcher.insert(start_url.clone(), Ok(vec![ok_url.clone(), bad_url.clone()]));
    fetcher.insert(ok_url.clone(), Ok(vec![]));
    fetcher.insert(bad_url.clone(), Err("permanent failure".to_string()));

    // The crawlers should attempt to fetch all three URLs, even if one fails.
    let expected: HashSet<String> = [start_url.clone(), ok_url.clone(), bad_url.clone()]
        .iter()
        .cloned()
        .collect();

    // Serial
    let mut fetched_serial = Ledger::new();
    serial_crawler(start_url.clone(), &fetcher, &mut fetched_serial);
    assert_eq!(
        as_set(&fetched_serial),
        expected,
        "Serial crawler failed with fetch error"
    );

    // Mutex
    let fetcher_arc = Arc::new(fetcher);
    let fetched_mutex = Arc::new(Mutex::new(Ledger::new()));
    concurrent_mutex_crawler(
        start_url.clone(),
        fetcher_arc.clone(),
        fetched_mutex.clone(),
    );
    assert_eq!(
        as_set(&fetched_mutex.lock().unwrap()),
        expected,
        "Mutex crawler failed with fetch error"
    );

    // Channel
    let fetched_channel = concurrent_channel_crawler(start_url.clone(), fetcher_arc);
    assert_eq!(
        fetched_channel, expected,
        "Channel crawler failed with fetch error"
    );
}

/// The coordinator engine on one thread: the fetch that was handed out
/// first reports first, or the one that was handed out last.
fn coordinate(url: &str, fetcher: &FakeFetcher, oldest_first: bool) -> (HashSet<String>, usize) {
    let mut coordinator = Coordinator::start(url);
    let mut in_flight: VecDeque<String> = VecDeque::new();
    in_flight.push_back(url.to_string());
    let mut reports = 0;
    while !coordinator.is_done() {
        assert_eq!(coordinator.outstanding_fetches(), in_flight.len());
        let next = if oldest_first {
            in_flight.pop_front().unwrap()
        } else {
            in_flight.pop_back().unwrap()
        };
        for u in coordinator.absorb(fetcher.fetch(&next)) {
            in_flight.push_back(u);
        }
        reports += 1;
        assert_eq!(coordinator.fetched().len(), reports + in_flight.len());
    }
    assert!(in_flight.is_empty());
    (as_set(&coordinator.into_fetched()), reports)
}

/// The shared-state engine on one thread: the task that was spawned last
/// steps first.
fn run_tasks(url: &str, fetcher: &FakeFetcher) -> (HashSet<String>, usize) {
    let mut fetched = Ledger::new();
    let mut tasks = vec![url.to_string()];
    let mut fetches = 0;
    while let Some(next) = tasks.pop() {
        if fetched.claim(&next) {
            fetches += 1;
            tasks.extend(discovered(fetcher.fetch(&next)));
        }
    }
    (as_set(&fetched), fetches)
}

#[test]
fn engines_agree_on_the_example_site() {
    let fetcher = get_fake_fetcher();
    let start = "https://example.com/";
    let mut fetched = Ledger::new();
    serial_crawler(start.to_string(), &fetcher, &mut fetched);
    let serial = as_set(&fetched);
    assert_eq!(serial, get_expected_urls());
    assert_eq!(run_tasks(start, &fetcher), (serial.clone(), 5));
    assert_eq!(coordinate(start, &fetcher, true), (serial.clone(), 5));
    assert_eq!(coordinate(start, &fetcher, false), (serial.clone(), 5));
    let shared = Arc::new(get_fake_fetcher());
    assert_eq!(concurrent_channel_crawler(start.to_string(), shared), serial);
}

#[test]
fn engines_agree_from_every_page_of_the_example_site() {
    let fetcher = get_fake_fetcher();
    for (start, count) in [
        ("https://example.com/page1", 5),
        ("https://example.com/page2", 5),
        ("https://example.com/page3", 5),
        ("https://example.com/page4", 1),
    ] {
        let mut fetched = Ledger::new();
        serial_crawler(start.to_string(), &fetcher, &mut fetched);
        let serial = as_set(&fetched);
        assert_eq!(serial.len(), count);
        assert_eq!(run_tasks(start, &fetcher), (serial.clone(), count));
        assert_eq!(coordinate(start, &fetcher, true), (serial.clone(), count));
        assert_eq!(coordinate(start, &fetcher, false), (serial, count));
    }
}

#[test]
fn a_cycle_of_two_nodes_ends_with_both() {
    let mut fetcher = FakeFetcher::new();
    fetcher.insert("A".to_string(), Ok(vec!["B".to_string()]));
    fetcher.insert("B".to_string(), Ok(vec!["A".to_string()]));
    let expected: HashSet<String> = ["A".to_string(), "B".to_string()].into_iter().collect();

    let mut fetched = Ledger::new();
    serial_crawler("A".to_string(), &fetcher, &mut fetched);
    assert_eq!(fetched.nodes(), &vec!["A".to_string(), "B".to_string()]);
    assert_eq!(run_tasks("A", &fetcher), (expected.clone(), 2));
    assert_eq!(coordinate("A", &fetcher, true), (expected.clone(), 2));

    let fetcher_arc = Arc::new(fetcher);
    let fetched_mutex = Arc::new(Mutex::new(Ledger::new()));
    concurrent_mutex_crawler("A".to_string(), fetcher_arc.clone(), fetched_mutex.clone());
    assert_eq!(as_set(&fetched_mutex.lock().unwrap()), expected);
    assert_eq!(concurrent_channel_crawler("A".to_string(), fetcher_arc), expected);
}

#[test]
fn a_node_that_leads_to_itself_is_claimed_once() {
    let mut fetcher = FakeFetcher::new();
    fetcher.insert("A".to_string(), Ok(vec!["A".to_string(), "A".to_string()]));
    let expected: HashSet<String> = ["A".to_string()].into_iter().collect();
    let mut fetched = Ledger::new();
    serial_crawler("A".to_string(), &fetcher, &mut fetched);
    assert_eq!(fetched.nodes(), &vec!["A".to_string()]);
    assert_eq!(run_tasks("A", &fetcher), (expected.clone(), 1));
    assert_eq!(coordinate("A", &fetcher, false), (expected, 1));
}

#[test]
fn serial_crawler_claims_depth_first_in_the_order_of_the_links() {
    let fetcher = get_fake_fetcher();
    let mut fetched = Ledger::new();
    serial_crawler("https://example.com/".to_string(), &fetcher, &mut fetched);
    let order: Vec<&str> = fetched.nodes().iter().map(|s| s.as_str()).collect();
    assert_eq!(
        order,
        vec![
            "https://example.com/",
            "https://example.com/page1",
            "https://example.com/page3",
            "https://example.com/page4",
            "https://example.com/page2",
        ]
    );
}

#[test]
fn serial_crawler_does_not_pass_through_claimed_nodes() {
    let fetcher = get_fake_fetcher();
    let mut fetched = Ledger::new();
    assert!(fetched.claim("https://example.com/page1"));
    serial_crawler("https://example.com/".to_string(), &fetcher, &mut fetched);
    let order: Vec<&str> = fetched.nodes().iter().map(|s| s.as_str()).collect();
    assert_eq!(
        order,
        vec![
            "https://example.com/page1",
            "https://example.com/",
            "https://example.com/page2",
        ]
    );
}

#[test]
fn serial_crawler_leaves_the_ledger_when_its_start_is_claimed() {
    let fetcher = get_fake_fetcher();
    let mut fetched = Ledger::new();
    assert!(fetched.claim("https://example.com/"));
    serial_crawler("https://example.com/".to_string(), &fetcher, &mut fetched);
    assert_eq!(fetched.nodes(), &vec!["https://example.com/".to_string()]);
}

#[test]
fn a_failed_branch_does_not_hide_what_lies_behind_its_siblings() {
    let mut fetcher = FakeFetcher::new();
    fetcher.insert(
        "start".to_string(),
        Ok(vec!["bad".to_string(), "ok".to_string()]),
    );
    fetcher.insert("bad".to_string(), Err("permanent failure".to_string()));
    fetcher.insert("ok".to_string(), Ok(vec!["deep".to_string()]));
    let expected: HashSet<String> = ["start", "bad", "ok", "deep"]
        .iter()
        .map(|s| s.to_string())
        .collect();
    let mut fetched = Ledger::new();
    serial_crawler("start".to_string(), &fetcher, &mut fetched);
    assert_eq!(as_set(&fetched), expected);
    assert_eq!(run_tasks("start", &fetcher), (expected.clone(), 4));
    assert_eq!(coordinate("start", &fetcher, true), (expected.clone(), 4));
    assert_eq!(coordinate("start", &fetcher, false), (expected, 4));
}

#[test]
fn every_engine_fetches_each_node_once() {
    let site = get_fake_fetcher();
    let log: Mutex<Vec<String>> = Mutex::new(Vec::new());
    let fetcher = Arc::new(crawler::fetch::FetchFn::new(|url: String| {
        log.lock().unwrap().push(url.clone());
        site.fetch(&url)
    }));
    let start = "https://example.com/".to_string();

    let mut fetched = Ledger::new();
    serial_crawler(start.clone(), &*fetcher, &mut fetched);
    let mut fetches: Vec<String> = log.lock().unwrap().drain(..).collect();
    assert_eq!(&fetches, fetched.nodes());

    let fetched_mutex = Arc::new(Mutex::new(Ledger::new()));
    concurrent_mutex_crawler(start.clone(), fetcher.clone(), fetched_mutex.clone());
    fetches = log.lock().unwrap().drain(..).collect();
    assert_eq!(&fetches, fetched_mutex.lock().unwrap().nodes());
    assert_eq!(fetches.len(), 5);

    assert_eq!(concurrent_channel_crawler(start, fetcher.clone()), get_expected_urls());
    fetches = log.lock().unwrap().drain(..).collect();
    assert_eq!(fetches.len(), 5);
    assert_eq!(fetches.into_iter().collect::<HashSet<String>>(), get_expected_urls());
}

#[test]
fn the_tasks_of_the_example_site_take_as_many_steps_as_it_is_large() {
    let fetcher = get_fake_fetcher();
    let mut fetched = Ledger::new();
    let mut tasks = vec!["https://example.com/".to_string()];
    let mut steps = 0;
    while let Some(next) = tasks.pop() {
        steps += 1;
        if fetched.claim(&next) {
            steps += 1;
            tasks.extend(discovered(fetcher.fetch(&next)));
        }
    }
    // One step for the start, and for each of the five pages one for its
    // fetch and one for each of its links, of which there are seven.
    assert_eq!(steps, 1 + 5 + 7);
    assert_eq!(as_set(&fetched), get_expected_urls());
}
