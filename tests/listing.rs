use dhs::{listing_total, size_labels, size_order, total_label, Entry};

fn entry(path: &str, size: u64, is_dir: bool) -> Entry {
    Entry { path: path.to_string(), size, is_dir }
}

#[test]
fn sizes_listed_largest_first_with_total() {
    let entries = vec![entry("d/a", 10, false), entry("d/b", 30, false), entry("d/c", 20, false)];
    let order = size_order(&entries);
    let listed: Vec<u64> = order.iter().map(|&i| entries[i].size).collect();
    assert_eq!(listed, vec![30, 20, 10]);
    assert_eq!(order, vec![1, 2, 0]);
    assert_eq!(listing_total(&entries, None), 60);
}

#[test]
fn measured_total_wins_over_sum() {
    let entries = vec![entry("d/a", 10, false), entry("d/sub", 4096, true)];
    assert_eq!(listing_total(&entries, Some(8192)), 8192);
    assert_eq!(listing_total(&entries, None), 4106);
}

#[test]
fn empty_listing() {
    let entries: Vec<Entry> = Vec::new();
    assert!(size_order(&entries).is_empty());
    assert_eq!(listing_total(&entries, None), 0);
}

#[test]
fn total_of_largest_sizes_does_not_overflow() {
    let entries = vec![entry("a", u64::MAX, false), entry("b", u64::MAX, false)];
    assert_eq!(listing_total(&entries, None), 2 * (u64::MAX as u128));
}

#[test]
fn equal_sizes_all_listed() {
    let entries = vec![entry("a", 5, false), entry("b", 7, false), entry("c", 5, true)];
    let order = size_order(&entries);
    assert_eq!(order.len(), 3);
    assert_eq!(order[0], 1);
    let mut rest = vec![order[1], order[2]];
    rest.sort();
    assert_eq!(rest, vec![0, 2]);
}

#[test]
fn size_labels_are_human_readable() {
    let entries = vec![entry("a", 60, false), entry("b", 1500, false)];
    let labels = size_labels(&entries, &vec![1, 0]);
    assert_eq!(labels, vec!["1.5 KB".to_string(), "60 B".to_string()]);
    assert_eq!(total_label(60), "60 B");
}
