use little_crawl::frontier::{FrontierQueue, Next, QueueError, SubmitError};
use little_crawl::visited::VisitedSet;

#[test]
fn queue_is_first_in_first_out() {
    let mut queue = FrontierQueue::new(None).unwrap();
    for url in ["a", "b", "c"] {
        assert!(queue.submit(url.to_string()).is_ok());
    }
    assert_eq!(queue.len(), 3);
    for url in ["a", "b", "c"] {
        match queue.next() {
            Next::Item(got) => assert_eq!(got, url),
            other => panic!("expected {}, got {:?}", url, other),
        }
    }
    assert!(matches!(queue.next(), Next::Pending));
    assert_eq!(queue.len(), 0);
}

#[test]
fn full_queue_hands_the_url_back() {
    let mut queue = FrontierQueue::new(Some(2)).unwrap();
    assert_eq!(queue.capacity(), Some(2));
    assert!(queue.submit("a".to_string()).is_ok());
    assert!(!queue.is_full());
    assert!(queue.submit("b".to_string()).is_ok());
    assert!(queue.is_full());
    match queue.submit("c".to_string()) {
        Err(SubmitError::Full(back)) => assert_eq!(back, "c"),
        other => panic!("expected a full queue, got {:?}", other),
    }
    assert_eq!(queue.len(), 2);
    assert!(matches!(queue.next(), Next::Item(_)));
    assert!(queue.submit("c".to_string()).is_ok());
    match queue.next() {
        Next::Item(got) => assert_eq!(got, "b"),
        other => panic!("expected b, got {:?}", other),
    }
    match queue.next() {
        Next::Item(got) => assert_eq!(got, "c"),
        other => panic!("expected c, got {:?}", other),
    }
}

#[test]
fn closed_queue_drains_then_is_exhausted() {
    let mut queue = FrontierQueue::new(Some(3)).unwrap();
    assert!(queue.submit("a".to_string()).is_ok());
    assert!(!queue.is_closed());
    queue.close();
    assert!(queue.is_closed());
    match queue.submit("b".to_string()) {
        Err(SubmitError::Closed(back)) => assert_eq!(back, "b"),
        other => panic!("expected a closed queue, got {:?}", other),
    }
    assert!(matches!(queue.next(), Next::Item(_)));
    assert!(matches!(queue.next(), Next::Exhausted));
    // Closing is for good.
    queue.close();
    assert!(queue.is_closed());
    assert!(matches!(queue.next(), Next::Exhausted));
}

#[test]
fn queue_capacity_limits() {
    assert_eq!(FrontierQueue::new(Some(0)).err(), Some(QueueError::ZeroCapacity));
    assert_eq!(FrontierQueue::new(Some(usize::MAX / 64 + 1)).err(), Some(QueueError::CapacityTooLarge));
    assert!(FrontierQueue::new(Some(1)).is_ok());
    assert_eq!(FrontierQueue::new(None).unwrap().capacity(), None);
}

#[test]
fn claim_succeeds_once() {
    let mut visited = VisitedSet::new();
    assert!(visited.is_empty());
    assert!(visited.claim("https://a.test/"));
    assert!(!visited.claim("https://a.test/"));
    assert!(visited.claim("https://a.test"));
    assert!(visited.claim("https://b.test/"));
    assert!(!visited.claim("https://a.test/"));
    assert!(visited.contains("https://b.test/"));
    assert!(!visited.contains("https://c.test/"));
    assert_eq!(visited.len(), 3);
    assert_eq!(
        visited.into_urls(),
        vec!["https://a.test/".to_string(), "https://a.test".to_string(), "https://b.test/".to_string()]
    );
}
