use waffle_iron::random::traits::Random;
use waffle_iron::random::RandomIter;

#[test]
fn every_item_comes_out_once_in_a_pass() {
    let items: Vec<usize> = (0..81).collect();
    let mut iter = RandomIter::new(items.iter().collect()).unwrap();
    let mut seen = vec![false; 81];
    for _ in 0..81 {
        let item = *iter.next().unwrap().unwrap();
        assert!(!seen[item]);
        seen[item] = true;
    }
    assert!(seen.iter().all(|&s| s));
    // The pass ends with `None` once, then the next pass begins.
    assert!(iter.next().unwrap().is_none());
    let mut again = vec![false; 81];
    for _ in 0..81 {
        let item = *iter.next().unwrap().unwrap();
        assert!(!again[item]);
        again[item] = true;
    }
    assert!(iter.next().unwrap().is_none());
}

#[test]
fn a_single_item_comes_out_every_pass() {
    let items = vec![7u8];
    let mut iter = RandomIter::new(items.iter().collect()).unwrap();
    assert_eq!(iter.next().unwrap(), Some(&7));
    assert_eq!(iter.next().unwrap(), None);
    assert_eq!(iter.next().unwrap(), Some(&7));
    assert_eq!(iter.next().unwrap(), None);
}

#[test]
fn a_reset_starts_a_new_pass() {
    let items: Vec<u8> = (1..=9).collect();
    let mut iter = RandomIter::new(items.iter().collect()).unwrap();
    let first = *iter.next().unwrap().unwrap();
    assert!((1..=9).contains(&first));
    iter.reset().unwrap();
    let mut seen: Vec<u8> = Vec::new();
    while let Some(item) = iter.next().unwrap() {
        seen.push(*item);
    }
    seen.sort();
    assert_eq!(seen, items);
}

#[test]
fn a_long_list_comes_out_whole() {
    // More than 256 items take two random bytes each.
    let items: Vec<u32> = (0..1000).collect();
    let mut iter = items.iter().collect::<Vec<&u32>>().random().unwrap();
    let mut seen: Vec<u32> = Vec::new();
    while let Some(item) = iter.next().unwrap() {
        seen.push(*item);
    }
    assert_eq!(seen.len(), 1000);
    assert_ne!(seen, items);
    seen.sort();
    assert_eq!(seen, items);
}

#[test]
fn two_passes_differ() {
    let items: Vec<usize> = (0..81).collect();
    let mut iter = RandomIter::new(items.iter().collect()).unwrap();
    let mut first: Vec<usize> = Vec::new();
    while let Some(item) = iter.next().unwrap() {
        first.push(*item);
    }
    let mut second: Vec<usize> = Vec::new();
    while let Some(item) = iter.next().unwrap() {
        second.push(*item);
    }
    assert_ne!(first, second);
}

#[test]
fn a_single_item_starts_anew_without_the_random_source() {
    let items = vec![3usize];
    let mut iter = RandomIter::new(items.iter().collect()).unwrap();
    assert!(iter.reset().is_ok());
    assert_eq!(iter.next().unwrap(), Some(&3));
    assert!(iter.reset().is_ok());
    assert_eq!(iter.next().unwrap(), Some(&3));
    assert_eq!(iter.next().unwrap(), None);
    let again = items.iter().collect::<Vec<&usize>>().random();
    assert!(again.is_ok());
}
