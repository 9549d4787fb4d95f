use dhs::{candidate_path, candidate_with_hash, MAX_PATH_CHARS};

#[test]
fn first_candidate_is_original_name() {
    assert_eq!(candidate_path("dest", "img.png", 0), "dest/img.png");
    assert_eq!(candidate_path("dest/", "img.png", 0), "dest/img.png");
}

#[test]
fn same_name_collision_gets_numeric_suffix() {
    let first = candidate_path("dest", "img.png", 0);
    let second = candidate_path("dest", "img.png", 1);
    assert_eq!(second, "dest/img_1.png");
    assert_ne!(first, second);
    assert_eq!(candidate_path("dest", "img.png", 12), "dest/img_12.png");
}

#[test]
fn suffix_without_extension() {
    assert_eq!(candidate_path("d", "README", 2), "d/README_2");
    assert_eq!(candidate_path("d", ".bashrc", 1), "d/.bashrc_1");
    assert_eq!(candidate_path("d", "a.tar.gz", 1), "d/a.tar_1.gz");
}

#[test]
fn long_name_is_replaced_by_hash() {
    let long = format!("{}.jpg", "x".repeat(300));
    assert_eq!(candidate_with_hash("d", &long, "abc", 0), "d/abc_1.jpg");
    assert_eq!(candidate_with_hash("d", &long, "abc", 3), "d/abc_1_3.jpg");
    let p = candidate_path("d", &long, 0);
    assert!(p.len() < MAX_PATH_CHARS);
    assert!(p.starts_with("d/"));
    assert!(p.ends_with("_1.jpg"));
    assert_eq!(p, candidate_path("d", &long, 0));
}

#[test]
fn name_at_limit_is_kept() {
    let name = "y".repeat(MAX_PATH_CHARS - 2);
    assert_eq!(candidate_path("d", &name, 0), format!("d/{}", name));
    let longer = "y".repeat(MAX_PATH_CHARS - 1);
    assert_eq!(candidate_with_hash("d", &longer, "h", 0), "d/h_1");
}
