use selfie_vocab::counter::Counter;

fn sample() -> Counter {
    // counts: id0=3, id1=1, id2=3, id3=0, id4=5
    let mut c = Counter::zeroed(5);
    c.update(&[0, 0, 0, 1, 2, 2, 2, 4, 4, 4, 4, 4]);
    c
}

#[test]
fn zeroed_counter_is_all_zero() {
    let c = Counter::zeroed(4);
    assert_eq!(c.len(), 4);
    assert!(!c.is_empty());
    assert_eq!(c.values(), &[0, 0, 0, 0]);
    assert!(Counter::zeroed(0).is_empty());
    assert!(Counter::default().is_empty());
}

#[test]
fn insert_and_update_count_each_key() {
    let mut c = Counter::zeroed(3);
    c.insert(2);
    c.insert(2);
    c.update(&[0, 2, 1, 2]);
    assert_eq!(c.values(), &[1, 1, 4]);
}

#[test]
fn most_common_descending_ties_by_id() {
    let c = sample();
    assert_eq!(c.most_common(3), vec![(4, 5), (0, 3), (2, 3)]);
    assert_eq!(c.most_common(0), vec![]);
    assert_eq!(c.most_common(10), vec![(4, 5), (0, 3), (2, 3), (1, 1), (3, 0)]);
}

#[test]
fn least_common_ascending_ties_by_id() {
    let c = sample();
    assert_eq!(c.least_common(2), vec![(3, 0), (1, 1)]);
    assert_eq!(c.least_common(4), vec![(3, 0), (1, 1), (0, 3), (2, 3)]);
    let flat = Counter::zeroed(3);
    assert_eq!(flat.least_common(2), vec![(0, 0), (1, 0)]);
    assert_eq!(flat.most_common(2), vec![(0, 0), (1, 0)]);
}

#[test]
fn counts_below_threshold_are_exact() {
    let c = sample();
    assert_eq!(c.counts_less_n(3), vec![1, 3]);
    assert_eq!(c.counts_less_n(0), Vec::<usize>::new());
    assert_eq!(c.counts_less_n(6), vec![0, 1, 2, 3, 4]);
}

#[test]
fn counter_iter_walks_ids_in_order() {
    let c = sample();
    let mut it = c.iter();
    let mut seen = Vec::new();
    while let Some(p) = it.next() {
        seen.push(p);
    }
    assert_eq!(seen, vec![(0, 3), (1, 1), (2, 3), (3, 0), (4, 5)]);
}

#[test]
fn add_counts_many_occurrences() {
    let mut c = Counter::zeroed(2);
    c.add(1, 5);
    c.add(1, 2);
    c.add(0, 0);
    assert_eq!(c.values(), &[0, 7]);
}
