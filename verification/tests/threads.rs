use little_crawl::crawl::{Crawl, Task};
use little_crawl::links::PageError;
use little_crawl::visited::VisitedSet;
use std::collections::{HashMap, HashSet};
use std::sync::atomic::{AtomicUsize, Ordering};
use std::sync::{Condvar, Mutex};
use std::time::Duration;

struct Shared {
    crawl: Mutex<Crawl>,
    work: Condvar,
    room: Condvar,
    fetched: Mutex<Vec<String>>,
}

fn pause(millis: u64) {
    let _ = crossbeam::channel::after(Duration::from_millis(millis)).recv();
}

fn work(shared: &Shared, w: usize, pages: &HashMap<String, Vec<String>>, failing: &HashSet<String>) {
    loop {
        let task = {
            let mut crawl = shared.crawl.lock().unwrap();
            loop {
                match crawl.poll(w) {
                    Task::Wait => {
                        shared.room.notify_all();
                        crawl = shared.work.wait(crawl).unwrap();
                    }
                    task => break task,
                }
            }
        };
        shared.work.notify_all();
        shared.room.notify_all();
        match task {
            Task::Fetch(url) => {
                shared.fetched.lock().unwrap().push(url.clone());
                // A slow fetch: the other workers find the queue empty meanwhile.
                pause(1 + (url.len() as u64 % 3));
                let page = if failing.contains(&url) {
                    Err(PageError::Fetch)
                } else {
                    Ok(pages.get(&url).cloned().unwrap_or_default())
                };
                assert!(shared.crawl.lock().unwrap().complete(w, page));
            }
            _ => return,
        }
    }
}

fn run(
    pages: &HashMap<String, Vec<String>>,
    failing: &HashSet<String>,
    seeds: Vec<String>,
    workers: usize,
    capacity: Option<usize>,
    ceiling: Option<usize>,
) -> (Vec<String>, Vec<String>) {
    let crawl = Crawl::new(seeds, workers, capacity, ceiling).unwrap();
    let shared = Shared {
        crawl: Mutex::new(crawl),
        work: Condvar::new(),
        room: Condvar::new(),
        fetched: Mutex::new(Vec::new()),
    };
    crossbeam::scope(|scope| {
        for w in 0..workers {
            let shared = &shared;
            scope.spawn(move |_| work(shared, w, pages, failing));
        }
        let mut crawl = shared.crawl.lock().unwrap();
        while !crawl.seed() {
            shared.work.notify_all();
            crawl = shared.room.wait(crawl).unwrap();
        }
        drop(crawl);
        shared.work.notify_all();
    })
    .unwrap();
    let visited = shared.crawl.into_inner().unwrap().into_visited();
    (visited, shared.fetched.into_inner().unwrap())
}

/// A web of `n` pages in which page `i` links to `2i + 1`, `2i + 2`, back to
/// its parent and to itself.
fn tree(n: usize) -> HashMap<String, Vec<String>> {
    let name = |i: usize| format!("https://tree.test/{}", i);
    (0..n)
        .map(|i| {
            let mut links = vec![name(i)];
            for child in [2 * i + 1, 2 * i + 2] {
                if child < n {
                    links.push(name(child));
                }
            }
            if i > 0 {
                links.push(name((i - 1) / 2));
            }
            (name(i), links)
        })
        .collect()
}

#[test]
fn threaded_crawl_visits_every_page_once() {
    let pages = tree(200);
    let all: HashSet<String> = pages.keys().cloned().collect();
    for (workers, capacity) in [(1, Some(1)), (4, Some(1)), (8, Some(3)), (5, None), (16, Some(1000))] {
        let seeds = vec!["https://tree.test/0".to_string(), "https://tree.test/0".to_string()];
        let (visited, fetched) = run(&pages, &HashSet::new(), seeds, workers, capacity, None);
        assert_eq!(visited.len(), 200);
        assert_eq!(visited.iter().cloned().collect::<HashSet<_>>(), all);
        assert_eq!(fetched.len(), 200);
        assert_eq!(fetched.iter().cloned().collect::<HashSet<_>>(), all);
    }
}

#[test]
fn threaded_crawl_with_more_seeds_than_room() {
    let pages = tree(50);
    let seeds: Vec<String> = (0..50).rev().map(|i| format!("https://tree.test/{}", i)).collect();
    let (visited, fetched) = run(&pages, &HashSet::new(), seeds, 3, Some(2), None);
    assert_eq!(visited.len(), 50);
    assert_eq!(fetched.len(), 50);
}

#[test]
fn threaded_crawl_survives_failing_pages() {
    let pages = tree(63);
    // The subtree below page 2 is reachable only through page 2.
    let failing: HashSet<String> = ["https://tree.test/2".to_string()].into_iter().collect();
    let (visited, fetched) =
        run(&pages, &failing, vec!["https://tree.test/0".to_string()], 4, Some(2), None);
    let visited: HashSet<String> = visited.into_iter().collect();
    assert!(visited.contains("https://tree.test/2"));
    assert!(visited.contains("https://tree.test/1"));
    assert!(visited.contains("https://tree.test/31"));
    assert!(!visited.contains("https://tree.test/5"));
    // The root, the 31 pages below page 1, and page 2 itself.
    assert_eq!(visited.len(), 33);
    assert_eq!(fetched.len(), 33);
}

#[test]
fn threaded_crawl_stops_at_the_ceiling() {
    let pages = tree(500);
    let (visited, fetched) =
        run(&pages, &HashSet::new(), vec!["https://tree.test/0".to_string()], 6, Some(4), Some(40));
    assert_eq!(visited.len(), 40);
    assert_eq!(fetched.len(), 40);
}

#[test]
fn contended_claim_succeeds_exactly_once() {
    let visited = Mutex::new(VisitedSet::new());
    let wins = AtomicUsize::new(0);
    let losses = AtomicUsize::new(0);
    crossbeam::scope(|scope| {
        for _ in 0..32 {
            scope.spawn(|_| {
                for round in 0..50 {
                    let url = format!("https://contended.test/{}", round);
                    if visited.lock().unwrap().claim(&url) {
                        wins.fetch_add(1, Ordering::SeqCst);
                    } else {
                        losses.fetch_add(1, Ordering::SeqCst);
                    }
                }
            });
        }
    })
    .unwrap();
    assert_eq!(wins.load(Ordering::SeqCst), 50);
    assert_eq!(losses.load(Ordering::SeqCst), 31 * 50);
    assert_eq!(visited.into_inner().unwrap().len(), 50);
}
