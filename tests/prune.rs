use dhs::{prune_plan, Node};

fn dir(parent: usize) -> Node {
    Node { parent, is_dir: true }
}

fn file(parent: usize) -> Node {
    Node { parent, is_dir: false }
}

#[test]
fn emptied_directories_are_removed() {
    // 0 root, 1 a/, 2 a/b/ (empty), 3 c/, 4 c/notes.txt, 5 c/d/ (empty)
    let nodes = vec![dir(0), dir(0), dir(1), dir(0), file(3), dir(3)];
    assert_eq!(prune_plan(&nodes), vec![false, true, true, false, false, true]);
}

#[test]
fn root_is_never_removed() {
    assert_eq!(prune_plan(&vec![dir(0)]), vec![false]);
    assert_eq!(prune_plan(&vec![dir(0), dir(0), dir(1)]), vec![false, true, true]);
}

#[test]
fn deep_file_keeps_its_ancestors() {
    let nodes = vec![dir(0), dir(0), dir(1), dir(2), file(3)];
    assert_eq!(prune_plan(&nodes), vec![false, false, false, false, false]);
}
