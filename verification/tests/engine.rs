use std::sync::atomic::AtomicU32;
use std::sync::atomic::Ordering;
use std::sync::Arc;

use pubsub::Event;
use pubsub::Filter;
use pubsub::LinearScan;
use pubsub::Listener;
use pubsub::SubscribeError;
use pubsub::TreeScanner;

struct Counter(Arc<AtomicU32>);

impl Listener for Counter {
    fn accept(&mut self, _evt: &Event) {
        self.0.fetch_add(1, Ordering::SeqCst);
    }
}

fn filter_of(pairs: &[(&str, &str)]) -> Filter {
    let mut f = Filter::new();
    for (k, v) in pairs {
        f.insert_value((*k).to_owned(), (*v).to_owned());
    }
    f
}

fn event_of(pairs: &[(&str, &str)]) -> Event {
    let mut e = Event::new();
    for (k, v) in pairs {
        e.insert((*k).to_owned(), (*v).to_owned());
    }
    e
}

#[test]
fn tree_scanner_smoke_test() {
    let mut topic = TreeScanner::default();
    let count = Arc::new(AtomicU32::default());
    topic.subscribe(Counter(count.clone()), Filter::new());
    topic.subscribe(Counter(count.clone()), filter_of(&[("hello", "world")]));

    let evt = event_of(&[("hello", "world")]);
    topic.accept(&evt);
    assert_eq!(count.load(Ordering::SeqCst), 2);
}

#[test]
fn tree_scanner_handles_missing_filter_tags() {
    let mut topic = TreeScanner::default();
    let count = Arc::new(AtomicU32::default());
    topic.subscribe(Counter(count.clone()), filter_of(&[("a", "foo")]));
    topic.subscribe(Counter(count.clone()), filter_of(&[("b", "foo")]));

    let evt = event_of(&[("a", "foo"), ("b", "foo")]);
    topic.accept(&evt);
    assert_eq!(count.load(Ordering::SeqCst), 2);
}

#[test]
fn linear_scan_smoke_test() {
    let mut topic = LinearScan::default();
    let count = Arc::new(AtomicU32::default());
    topic.subscribe(Counter(count.clone()), Filter::new());
    topic.subscribe(Counter(count.clone()), filter_of(&[("hello", "world")]));

    let evt = event_of(&[("hello", "world")]);
    topic.accept(&evt);
    assert_eq!(count.load(Ordering::SeqCst), 2);
}

#[test]
fn tree_scanner_wrong_value_matches_nothing() {
    let mut topic = TreeScanner::default();
    let count = Arc::new(AtomicU32::default());
    topic.subscribe(Counter(count.clone()), filter_of(&[("hello", "world")]));

    let evt = event_of(&[("hello", "garbage")]);
    topic.accept(&evt);
    assert_eq!(count.load(Ordering::SeqCst), 0);
}

#[test]
fn linear_scan_wrong_value_matches_nothing() {
    let mut topic = LinearScan::default();
    let count = Arc::new(AtomicU32::default());
    topic.subscribe(Counter(count.clone()), filter_of(&[("hello", "world")]));

    let evt = event_of(&[("hello", "garbage")]);
    topic.accept(&evt);
    assert_eq!(count.load(Ordering::SeqCst), 0);
}

#[test]
fn tree_scanner_rejects_multi_valued_filter() {
    let mut topic = TreeScanner::default();
    let count = Arc::new(AtomicU32::default());
    let mut f = Filter::new();
    f.insert_value("x".to_owned(), "1".to_owned());
    f.insert_value("x".to_owned(), "2".to_owned());
    let r = topic.try_subscribe(Counter(count.clone()), f);
    assert_eq!(r, Err(SubscribeError::MultiValuedTag));

    let evt = event_of(&[("x", "1")]);
    topic.accept(&evt);
    assert_eq!(count.load(Ordering::SeqCst), 0);
}

#[test]
fn tree_scanner_takes_single_valued_filter_checked() {
    let mut topic = TreeScanner::default();
    let count = Arc::new(AtomicU32::default());
    let r = topic.try_subscribe(Counter(count.clone()), filter_of(&[("x", "1")]));
    assert_eq!(r, Ok(()));

    let evt = event_of(&[("x", "1")]);
    topic.accept(&evt);
    assert_eq!(count.load(Ordering::SeqCst), 1);
}

#[test]
fn linear_scan_supports_multi_valued_filter() {
    let mut topic = LinearScan::default();
    let count = Arc::new(AtomicU32::default());
    let mut f = Filter::new();
    f.insert_value("x".to_owned(), "1".to_owned());
    f.insert_value("x".to_owned(), "2".to_owned());
    topic.subscribe(Counter(count.clone()), f);

    topic.accept(&event_of(&[("x", "2")]));
    assert_eq!(count.load(Ordering::SeqCst), 1);
    topic.accept(&event_of(&[("x", "3")]));
    assert_eq!(count.load(Ordering::SeqCst), 1);
}

#[test]
fn empty_filter_matches_everything() {
    let mut tree = TreeScanner::default();
    let mut linear = LinearScan::default();
    let tree_count = Arc::new(AtomicU32::default());
    let linear_count = Arc::new(AtomicU32::default());
    tree.subscribe(Counter(tree_count.clone()), Filter::new());
    linear.subscribe(Counter(linear_count.clone()), Filter::new());

    for evt in [
        event_of(&[]),
        event_of(&[("a", "1")]),
        event_of(&[("a", "1"), ("b", "2"), ("c", "3")]),
    ] {
        tree.accept(&evt);
        linear.accept(&evt);
    }
    assert_eq!(tree_count.load(Ordering::SeqCst), 3);
    assert_eq!(linear_count.load(Ordering::SeqCst), 3);
}

#[test]
fn unconstrained_tags_are_ignored() {
    let mut tree = TreeScanner::default();
    let mut linear = LinearScan::default();
    let tree_count = Arc::new(AtomicU32::default());
    let linear_count = Arc::new(AtomicU32::default());
    tree.subscribe(Counter(tree_count.clone()), filter_of(&[("a", "foo")]));
    linear.subscribe(Counter(linear_count.clone()), filter_of(&[("a", "foo")]));

    let evt = event_of(&[("a", "foo"), ("b", "bar"), ("c", "baz")]);
    tree.accept(&evt);
    linear.accept(&evt);
    assert_eq!(tree_count.load(Ordering::SeqCst), 1);
    assert_eq!(linear_count.load(Ordering::SeqCst), 1);
}

#[test]
fn missing_required_tag_never_matches() {
    let mut tree = TreeScanner::default();
    let mut linear = LinearScan::default();
    let tree_count = Arc::new(AtomicU32::default());
    let linear_count = Arc::new(AtomicU32::default());
    tree.subscribe(Counter(tree_count.clone()), filter_of(&[("k", "v")]));
    linear.subscribe(Counter(linear_count.clone()), filter_of(&[("k", "v")]));

    for evt in [event_of(&[]), event_of(&[("other", "v")])] {
        tree.accept(&evt);
        linear.accept(&evt);
    }
    assert_eq!(tree_count.load(Ordering::SeqCst), 0);
    assert_eq!(linear_count.load(Ordering::SeqCst), 0);
}

#[test]
fn idempotent_construction() {
    let mut topic = TreeScanner::default();
    let first = Arc::new(AtomicU32::default());
    let second = Arc::new(AtomicU32::default());
    topic.subscribe(Counter(first.clone()), filter_of(&[("hello", "world")]));
    topic.subscribe(Counter(second.clone()), filter_of(&[("hello", "world")]));

    let evt = event_of(&[("hello", "world")]);
    topic.accept(&evt);
    assert_eq!(first.load(Ordering::SeqCst), 1);
    assert_eq!(second.load(Ordering::SeqCst), 1);
}

#[test]
fn match_equivalence_on_shared_structure() {
    // Subscriptions whose constrained tags stay within the first pipeline
    // positions, registered in the same order on both strategies.
    let subs: Vec<Vec<(&str, &str)>> = vec![
        vec![("a", "1")],
        vec![("a", "1"), ("b", "2")],
        vec![("a", "2"), ("b", "2")],
        vec![],
    ];
    let events = vec![
        event_of(&[("a", "1"), ("b", "2")]),
        event_of(&[("a", "2"), ("b", "2")]),
        event_of(&[("a", "1")]),
        event_of(&[("b", "2")]),
        event_of(&[("c", "9")]),
        event_of(&[]),
    ];
    for evt in &events {
        let mut tree = TreeScanner::default();
        let mut linear = LinearScan::default();
        let mut tree_counts = Vec::new();
        let mut linear_counts = Vec::new();
        for sub in &subs {
            let tc = Arc::new(AtomicU32::default());
            let lc = Arc::new(AtomicU32::default());
            tree.subscribe(Counter(tc.clone()), filter_of(sub));
            linear.subscribe(Counter(lc.clone()), filter_of(sub));
            tree_counts.push(tc);
            linear_counts.push(lc);
        }
        tree.accept(evt);
        linear.accept(evt);
        for (tc, lc) in tree_counts.iter().zip(linear_counts.iter()) {
            assert_eq!(tc.load(Ordering::SeqCst), lc.load(Ordering::SeqCst));
        }
    }
}

#[test]
fn event_insert_replaces_value() {
    let mut topic = LinearScan::default();
    let count = Arc::new(AtomicU32::default());
    topic.subscribe(Counter(count.clone()), filter_of(&[("k", "new")]));

    let mut evt = Event::new();
    evt.insert("k".to_owned(), "old".to_owned());
    evt.insert("k".to_owned(), "new".to_owned());
    topic.accept(&evt);
    assert_eq!(count.load(Ordering::SeqCst), 1);
}

#[test]
fn event_get_reads_tags() {
    let evt = event_of(&[("a", "1"), ("b", "2")]);
    assert_eq!(evt.get(&"a".to_owned()), Some(&"1".to_owned()));
    assert_eq!(evt.get(&"b".to_owned()), Some(&"2".to_owned()));
    assert_eq!(evt.get(&"c".to_owned()), None);
}

#[test]
fn filter_matches_directly() {
    let f = filter_of(&[("a", "1"), ("b", "2")]);
    assert!(f.matches(&event_of(&[("a", "1"), ("b", "2"), ("c", "3")])));
    assert!(!f.matches(&event_of(&[("a", "1")])));
    assert!(!f.matches(&event_of(&[("a", "1"), ("b", "3")])));
    assert!(Filter::new().matches(&event_of(&[])));
}

#[test]
fn filter_reports_single_valued_shape() {
    assert!(Filter::new().is_single_valued());
    assert!(filter_of(&[("a", "1"), ("b", "2")]).is_single_valued());
    let mut f = Filter::new();
    f.insert_value("a".to_owned(), "1".to_owned());
    f.insert_value("a".to_owned(), "1".to_owned());
    assert!(f.is_single_valued());
    f.insert_value("a".to_owned(), "2".to_owned());
    assert!(!f.is_single_valued());
}

struct Recorder(std::rc::Rc<std::cell::RefCell<Vec<u32>>>, u32);

impl Listener for Recorder {
    fn accept(&mut self, _evt: &Event) {
        self.0.borrow_mut().push(self.1);
    }
}

#[test]
fn deliveries_group_by_non_decreasing_depth() {
    let log = std::rc::Rc::new(std::cell::RefCell::new(Vec::new()));
    let mut topic = TreeScanner::default();
    // Depth 1: value edge on `a`.
    topic.subscribe(Recorder(log.clone(), 1), filter_of(&[("a", "x")]));
    // Depth 2: passthrough on `a`, then value edge on `b` (the third tag `c`
    // falls beyond the two-step walk, the documented limitation).
    topic.subscribe(Recorder(log.clone(), 2), filter_of(&[("b", "y"), ("c", "z")]));

    let evt = event_of(&[("a", "x"), ("b", "y")]);
    topic.accept(&evt);
    assert_eq!(*log.borrow(), vec![1, 2]);
}

#[test]
fn event_equality_ignores_insertion_order() {
    let mut e1 = Event::new();
    e1.insert("a".to_owned(), "1".to_owned());
    e1.insert("b".to_owned(), "2".to_owned());
    let mut e2 = Event::new();
    e2.insert("b".to_owned(), "2".to_owned());
    e2.insert("a".to_owned(), "1".to_owned());
    assert!(e1 == e2);

    let mut e3 = Event::new();
    e3.insert("a".to_owned(), "1".to_owned());
    assert!(e1 != e3);
    let mut e4 = Event::new();
    e4.insert("a".to_owned(), "1".to_owned());
    e4.insert("b".to_owned(), "3".to_owned());
    assert!(e1 != e4);
}

#[test]
fn filters_can_be_cloned() {
    let f = filter_of(&[("a", "1")]);
    let g = f.clone();
    let evt = event_of(&[("a", "1")]);
    assert!(f.matches(&evt));
    assert!(g.matches(&evt));
}

#[test]
fn tally_counts_receives() {
    let mut t = pubsub::Tally { count: 0 };
    let evt = event_of(&[("a", "1")]);
    t.accept(&evt);
    t.accept(&evt);
    assert_eq!(t.count, 2);

    let mut full = pubsub::Tally { count: u64::MAX };
    full.accept(&evt);
    assert_eq!(full.count, u64::MAX);
}
