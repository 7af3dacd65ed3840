use subgraph_coordinator::block::{BlockPointer, Hash256};
use subgraph_coordinator::filter::{Address, ChainEvent, EventFilter, Selector};

fn selector(address: u128, topic: u128) -> Selector {
    Selector {
        address: Address { high: 0, low: address },
        topic: Hash256 { high: 0, low: topic },
    }
}

fn event(address: u128, topics: Vec<u128>) -> ChainEvent {
    ChainEvent {
        block_ref: BlockPointer { number: 1, hash: Hash256 { high: 0, low: 1 } },
        log_index: 0,
        address: Address { high: 0, low: address },
        topics: topics.into_iter().map(|low| Hash256 { high: 0, low }).collect(),
        data: Vec::new(),
    }
}

fn filter_of(selectors: &[Selector]) -> EventFilter {
    let mut filter = EventFilter::empty();
    for selector in selectors {
        filter.insert(*selector);
    }
    filter
}

fn same_selection(a: &EventFilter, b: &EventFilter, probes: &[Selector]) -> bool {
    probes.iter().all(|probe| a.contains(*probe) == b.contains(*probe))
}

#[test]
fn empty_filter_matches_nothing() {
    let filter = EventFilter::empty();
    assert!(filter.is_empty());
    assert!(!filter.matches(&event(1, vec![1])));
    assert!(!filter.matches(&event(1, vec![])));
    assert!(!filter.contains(selector(1, 1)));
}

#[test]
fn filter_matches_by_address_and_first_topic() {
    let filter = filter_of(&[selector(1, 10)]);
    assert!(!filter.is_empty());
    assert!(filter.matches(&event(1, vec![10])));
    assert!(filter.matches(&event(1, vec![10, 11])));
    assert!(!filter.matches(&event(1, vec![11, 10])));
    assert!(!filter.matches(&event(2, vec![10])));
    assert!(!filter.matches(&event(1, vec![])));
}

#[test]
fn address_is_compared_in_full() {
    let filter = filter_of(&[Selector {
        address: Address { high: 1, low: 1 },
        topic: Hash256 { high: 1, low: 10 },
    }]);
    assert!(!filter.contains(selector(1, 10)));
    assert!(filter.contains(Selector {
        address: Address { high: 1, low: 1 },
        topic: Hash256 { high: 1, low: 10 },
    }));
}

#[test]
fn insert_twice_is_insert_once() {
    let mut filter = filter_of(&[selector(1, 10)]);
    filter.insert(selector(1, 10));
    assert!(filter.contains(selector(1, 10)));
    assert!(!filter.contains(selector(10, 1)));
}

#[test]
fn union_is_commutative_and_associative() {
    let probes = [selector(1, 10), selector(2, 20), selector(3, 30), selector(4, 40)];
    let a = || filter_of(&[selector(1, 10), selector(2, 20)]);
    let b = || filter_of(&[selector(2, 20), selector(3, 30)]);
    let c = || filter_of(&[selector(3, 30)]);

    let mut ab = a();
    ab.merge(&b());
    let mut ba = b();
    ba.merge(&a());
    assert!(same_selection(&ab, &ba, &probes));
    assert!(ab.contains(probes[0]) && ab.contains(probes[1]) && ab.contains(probes[2]));
    assert!(!ab.contains(probes[3]));

    let mut ab_c = a();
    ab_c.merge(&b());
    ab_c.merge(&c());
    let mut bc = b();
    bc.merge(&c());
    let mut a_bc = a();
    a_bc.merge(&bc);
    assert!(same_selection(&ab_c, &a_bc, &probes));
}

#[test]
fn empty_filter_is_the_identity_of_union() {
    let probes = [selector(1, 10), selector(2, 20), selector(3, 30)];
    let mut left = filter_of(&[selector(1, 10), selector(2, 20)]);
    left.merge(&EventFilter::empty());
    let mut right = EventFilter::empty();
    right.merge(&filter_of(&[selector(1, 10), selector(2, 20)]));
    assert!(same_selection(&left, &right, &probes));
    assert!(left.contains(probes[0]) && left.contains(probes[1]) && !left.contains(probes[2]));
}

#[test]
fn combine_skips_the_missing_filters() {
    let filters = vec![
        Some(filter_of(&[selector(1, 10)])),
        None,
        Some(filter_of(&[selector(3, 30), selector(1, 10)])),
    ];
    let union = EventFilter::combine(&filters);
    assert!(union.contains(selector(1, 10)));
    assert!(union.contains(selector(3, 30)));
    assert!(!union.contains(selector(2, 20)));
    assert!(union.matches(&event(3, vec![30])));

    let none: Vec<Option<EventFilter>> = vec![None, None];
    assert!(EventFilter::combine(&none).is_empty());
    assert!(EventFilter::combine(&Vec::new()).is_empty());
}
