use dhs::{content_hash, duplicate_plan, size_groups, Registry};

#[test]
fn content_hash_is_sha256_hex() {
    assert_eq!(
        content_hash(b"abc"),
        "ba7816bf8f01cfea414140de5dae2223b00361a396177a9cb410ff61f20015ad"
    );
    assert_eq!(
        content_hash(b""),
        "e3b0c44298fc1c149afbf4c8996fb92427ae41e4649b934ca495991b7852b855"
    );
}

#[test]
fn one_of_two_identical_files_is_deleted() {
    // A and B share content, C has other content of the same size, D is alone in its size.
    let a = b"same".to_vec();
    let b = b"same".to_vec();
    let c = b"diff".to_vec();
    let sizes = vec![4, 4, 4, 9];
    let hashes = vec![Some(content_hash(&a)), Some(content_hash(&b)), Some(content_hash(&c)), None];
    assert_eq!(duplicate_plan(&sizes, &hashes), vec![false, true, false, false]);
}

#[test]
fn singleton_size_never_deleted() {
    let sizes = vec![1, 2, 3];
    let h = Some("h".to_string());
    let hashes = vec![h.clone(), h.clone(), h];
    assert_eq!(duplicate_plan(&sizes, &hashes), vec![false, false, false]);
}

#[test]
fn unreadable_file_is_skipped() {
    let sizes = vec![4, 4, 4];
    let hashes = vec![None, Some("x".to_string()), Some("x".to_string())];
    assert_eq!(duplicate_plan(&sizes, &hashes), vec![false, false, true]);
}

#[test]
fn second_dedupe_deletes_nothing() {
    let sizes = vec![3, 3, 3, 5, 5];
    let hashes: Vec<Option<String>> =
        vec!["p", "p", "q", "r", "r"].into_iter().map(|s| Some(s.to_string())).collect();
    let first = duplicate_plan(&sizes, &hashes);
    assert_eq!(first, vec![false, true, false, false, true]);
    let sizes2: Vec<u64> = (0..5).filter(|&i| !first[i]).map(|i| sizes[i]).collect();
    let hashes2: Vec<Option<String>> = (0..5).filter(|&i| !first[i]).map(|i| hashes[i].clone()).collect();
    assert_eq!(duplicate_plan(&sizes2, &hashes2), vec![false, false, false]);
}

#[test]
fn registry_keeps_first_file_per_hash() {
    let mut reg = Registry::new();
    assert!(!reg.observe("h1".to_string(), 0));
    assert!(!reg.observe("h2".to_string(), 1));
    assert!(reg.observe("h1".to_string(), 2));
    let kept: Vec<(String, usize)> = reg.keepers().clone();
    assert_eq!(kept, vec![("h1".to_string(), 0), ("h2".to_string(), 1)]);
}

#[test]
fn groups_hold_shared_sizes_only() {
    let sizes = vec![4, 7, 4, 9, 7, 4];
    let mut groups = size_groups(&sizes);
    groups.sort();
    assert_eq!(groups, vec![vec![0, 2, 5], vec![1, 4]]);
    assert!(size_groups(&vec![1, 2, 3]).is_empty());
    assert!(size_groups(&Vec::new()).is_empty());
}
