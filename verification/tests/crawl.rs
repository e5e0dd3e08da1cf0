use little_crawl::crawl::{Crawl, SetupError, Task};
use little_crawl::frontier::QueueError;
use little_crawl::links::PageError;
use std::collections::{HashMap, HashSet};

/// A simulated web: each page's links, and the pages whose fetch fails.
struct Site {
    pages: HashMap<String, Vec<String>>,
    failing: HashSet<String>,
}

fn site(pages: &[(&str, &[&str])], failing: &[&str]) -> Site {
    Site {
        pages: pages
            .iter()
            .map(|(url, links)| (url.to_string(), links.iter().map(|l| l.to_string()).collect()))
            .collect(),
        failing: failing.iter().map(|u| u.to_string()).collect(),
    }
}

fn fetch(site: &Site, url: &str) -> Result<Vec<String>, PageError> {
    if site.failing.contains(url) {
        Err(PageError::Fetch)
    } else {
        Ok(site.pages.get(url).cloned().unwrap_or_default())
    }
}

fn strings(urls: &[&str]) -> Vec<String> {
    urls.iter().map(|u| u.to_string()).collect()
}

/// Runs a crawl on one thread, the workers taking turns, and returns the
/// visited URLs and the URLs handed out for fetching, in order. Panics if a
/// whole round passes in which nobody can do anything.
fn drive(
    site: &Site,
    seeds: &[&str],
    workers: usize,
    capacity: Option<usize>,
    ceiling: Option<usize>,
) -> (Vec<String>, Vec<String>) {
    let mut crawl = Crawl::new(strings(seeds), workers, capacity, ceiling).unwrap();
    let mut fetched = Vec::new();
    let mut exited = vec![false; workers];
    let mut seeded = false;
    while exited.iter().any(|gone| !gone) {
        let mut progressed = false;
        if !seeded {
            seeded = crawl.seed();
            progressed = true;
        }
        for w in 0..workers {
            if exited[w] {
                continue;
            }
            match crawl.poll(w) {
                Task::Fetch(url) => {
                    fetched.push(url.clone());
                    assert!(crawl.complete(w, fetch(site, &url)));
                    progressed = true;
                }
                Task::Wait => {}
                Task::Exit => {
                    exited[w] = true;
                    progressed = true;
                }
            }
        }
        assert!(progressed, "the crawl is stuck");
    }
    (crawl.into_visited(), fetched)
}

fn as_set(urls: &[String]) -> HashSet<String> {
    urls.iter().cloned().collect()
}

#[test]
fn duplicate_link_is_fetched_once() {
    let web = site(&[("A", &["B", "C"]), ("B", &["C"]), ("C", &[])], &[]);
    let (visited, fetched) = drive(&web, &["A"], 2, None, None);
    assert_eq!(as_set(&visited), as_set(&strings(&["A", "B", "C"])));
    assert_eq!(visited.len(), 3);
    assert_eq!(fetched.len(), 3);
    assert_eq!(fetched.iter().filter(|u| u.as_str() == "C").count(), 1);
}

#[test]
fn small_buffer_does_not_stall() {
    let web = site(&[("A", &["P1", "P2", "P3", "P4", "P5"])], &[]);
    let (visited, fetched) = drive(&web, &["A"], 1, Some(1), None);
    assert_eq!(as_set(&visited), as_set(&strings(&["A", "P1", "P2", "P3", "P4", "P5"])));
    assert_eq!(fetched, strings(&["A", "P1", "P2", "P3", "P4", "P5"]));
}

#[test]
fn test_multith_crawl() {
    let urls = [
        "https://www.rust-lang.org",
        "https://www.wikipedia.org",
        "https://www.wikipedia.org",
        "https://google.com",
        "https://google.com",
        "https://github.com",
        "https://leetcode.com",
        "https://www.onlinegdb.com",
    ];
    let num_uniq_urls = urls.iter().collect::<HashSet<_>>().len();
    let web = site(&[], &[]);
    let (visited, fetched) = drive(&web, &urls, 5, Some(5), None);
    assert_eq!(fetched.len(), num_uniq_urls);
    assert_eq!(visited.len(), num_uniq_urls);
}

#[test]
fn visited_is_in_claim_order_and_matches_the_fetches() {
    let web = site(&[("A", &["B", "C", "A"]), ("B", &["D", "A"]), ("C", &["D"]), ("D", &["B"])], &[]);
    let (visited, fetched) = drive(&web, &["A", "A"], 1, None, None);
    assert_eq!(visited, strings(&["A", "B", "C", "D"]));
    assert_eq!(fetched, visited);
}

#[test]
fn every_reachable_page_is_visited() {
    let web = site(
        &[
            ("s1", &["a", "b"]),
            ("s2", &["b", "c"]),
            ("a", &["d"]),
            ("b", &["s1"]),
            ("c", &["e", "f"]),
            ("d", &[]),
            ("e", &["a"]),
            ("f", &["g"]),
            ("g", &["f", "s2"]),
            ("unreachable", &["a"]),
        ],
        &[],
    );
    for workers in 1..4 {
        for capacity in [None, Some(1), Some(2), Some(100)] {
            let (visited, fetched) = drive(&web, &["s1", "s2"], workers, capacity, None);
            assert_eq!(
                as_set(&visited),
                as_set(&strings(&["s1", "s2", "a", "b", "c", "d", "e", "f", "g"]))
            );
            assert_eq!(visited.len(), 9);
            assert_eq!(fetched.len(), 9);
        }
    }
}

#[test]
fn failed_page_does_not_stop_the_crawl() {
    let web = site(&[("A", &["X", "B"]), ("X", &["hidden"]), ("B", &["C"]), ("C", &[])], &["X"]);
    let (visited, fetched) = drive(&web, &["A"], 2, Some(2), None);
    assert_eq!(as_set(&visited), as_set(&strings(&["A", "X", "B", "C"])));
    assert_eq!(fetched.iter().filter(|u| u.as_str() == "X").count(), 1);
}

#[test]
fn ceiling_caps_the_claims() {
    let web = site(&[("A", &["B", "C", "D", "E"]), ("B", &["F"]), ("C", &["G"])], &[]);
    let (visited, fetched) = drive(&web, &["A"], 2, None, Some(3));
    assert_eq!(visited.len(), 3);
    assert_eq!(fetched.len(), 3);
    assert_eq!(visited[0], "A");
}

#[test]
fn ceiling_of_zero_claims_nothing() {
    let web = site(&[("A", &["B"])], &[]);
    let (visited, fetched) = drive(&web, &["A"], 3, Some(4), Some(0));
    assert!(visited.is_empty());
    assert!(fetched.is_empty());
}

#[test]
fn no_seeds_finishes_at_once() {
    let web = site(&[], &[]);
    let (visited, fetched) = drive(&web, &[], 2, Some(1), None);
    assert!(visited.is_empty());
    assert!(fetched.is_empty());
}

#[test]
fn more_seeds_than_capacity() {
    let web = site(&[("a", &["x"]), ("b", &["x"]), ("c", &["y"]), ("d", &[])], &[]);
    let (visited, _) = drive(&web, &["a", "b", "c", "d", "a"], 1, Some(2), None);
    assert_eq!(as_set(&visited), as_set(&strings(&["a", "b", "c", "d", "x", "y"])));
}

#[test]
fn setup_errors() {
    assert_eq!(Crawl::new(vec![], 0, None, None).err(), Some(SetupError::NoWorkers));
    assert_eq!(
        Crawl::new(vec![], 1, Some(0), None).err(),
        Some(SetupError::Queue(QueueError::ZeroCapacity))
    );
    assert_eq!(
        Crawl::new(vec![], 1, Some(usize::MAX), None).err(),
        Some(SetupError::Queue(QueueError::CapacityTooLarge))
    );
    assert_eq!(Crawl::new(vec![], 0, Some(0), None).err(), Some(SetupError::NoWorkers));
}

#[test]
fn poll_and_complete_of_strangers_change_nothing() {
    let mut crawl = Crawl::new(strings(&["A"]), 1, None, None).unwrap();
    assert!(crawl.seed());
    assert!(matches!(crawl.poll(7), Task::Exit));
    assert!(!crawl.complete(7, Ok(strings(&["B"]))));
    assert!(!crawl.complete(0, Ok(strings(&["B"]))));
    match crawl.poll(0) {
        Task::Fetch(url) => assert_eq!(url, "A"),
        other => panic!("expected a fetch, got {:?}", other),
    }
    // A worker that is fetching is told to wait.
    assert!(matches!(crawl.poll(0), Task::Wait));
    assert!(crawl.complete(0, Err(PageError::Fetch)));
    assert!(!crawl.complete(0, Ok(vec![])));
    assert!(matches!(crawl.poll(0), Task::Exit));
    assert!(matches!(crawl.poll(0), Task::Exit));
    assert_eq!(crawl.visited_len(), 1);
    assert_eq!(crawl.workers(), 1);
}

#[test]
fn idle_worker_waits_while_another_fetches() {
    let mut crawl = Crawl::new(strings(&["A"]), 2, Some(1), None).unwrap();
    assert!(crawl.seed());
    assert!(matches!(crawl.poll(0), Task::Fetch(_)));
    assert!(matches!(crawl.poll(1), Task::Wait));
    assert!(crawl.complete(0, Ok(strings(&["B", "C"]))));
    // Worker 1 still finds the queue empty: the links are with worker 0.
    assert!(matches!(crawl.poll(1), Task::Wait));
    match crawl.poll(0) {
        Task::Fetch(url) => assert_eq!(url, "B"),
        other => panic!("expected a fetch, got {:?}", other),
    }
    match crawl.poll(1) {
        Task::Fetch(url) => assert_eq!(url, "C"),
        other => panic!("expected a fetch, got {:?}", other),
    }
    assert!(crawl.complete(1, Ok(vec![])));
    assert!(matches!(crawl.poll(1), Task::Wait));
    assert!(crawl.complete(0, Ok(vec![])));
    assert!(matches!(crawl.poll(0), Task::Exit));
    assert!(matches!(crawl.poll(1), Task::Exit));
    assert_eq!(crawl.into_visited(), strings(&["A", "B", "C"]));
}
