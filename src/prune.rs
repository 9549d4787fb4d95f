//! Pruning of empty directories under a root, bottom-up.
//!
//! A tree is given as a list of nodes in which node 0 is the root and every
//! other node names a parent that comes before it, as a pre-order walk
//! lists them.
use vstd::prelude::*;

verus! {

/// One entry of a walked tree.
#[derive(Clone, Copy, Debug, PartialEq, Eq)]
pub struct Node {
    /// Position of the directory that holds this entry.
    pub parent: usize,
    /// Whether the entry is a directory.
    pub is_dir: bool,
}

/// Every node but the root has a parent before it, and that parent is a
/// directory.
pub open spec fn well_formed(nodes: Seq<Node>) -> bool {
    forall|i: int|
        0 < i < nodes.len() ==> #[trigger] nodes[i].parent < i && nodes[nodes[i].parent as int].is_dir
}

/// Node `f` is node `i` or lies beneath it.
pub open spec fn is_within(nodes: Seq<Node>, f: int, i: int) -> bool
    decreases f,
{
    if f == i {
        true
    } else if 0 < f < nodes.len() && nodes[f].parent < f {
        is_within(nodes, nodes[f].parent as int, i)
    } else {
        false
    }
}

/// Node `i` is a file, or a directory with a file somewhere beneath it.
pub open spec fn holds_file(nodes: Seq<Node>, i: int) -> bool {
    exists|f: int| 0 <= f < nodes.len() && !nodes[f].is_dir && #[trigger] is_within(nodes, f, i)
}

proof fn lemma_within_child(nodes: Seq<Node>, f: int, t: int)
    requires
        well_formed(nodes),
        0 < t < nodes.len(),
        is_within(nodes, f, t),
    ensures
        is_within(nodes, f, nodes[t].parent as int),
    decreases f,
{
    assert(nodes[t].parent < t);
    assert(is_within(nodes, nodes[t].parent as int, nodes[t].parent as int));
    if f != t {
        lemma_within_child(nodes, nodes[f].parent as int, t);
    }
}

proof fn lemma_child_on_path(nodes: Seq<Node>, f: int, c: int) -> (t: int)
    requires
        well_formed(nodes),
        0 <= c < nodes.len(),
        0 <= f < nodes.len(),
        f != c,
        is_within(nodes, f, c),
    ensures
        c < t < nodes.len(),
        nodes[t].parent == c,
        is_within(nodes, f, t),
    decreases f,
{
    let p = nodes[f].parent as int;
    if p == c {
        f
    } else {
        let t = lemma_child_on_path(nodes, p, c);
        t
    }
}

/// A directory holds a file exactly when one of its entries does.
proof fn lemma_holds_file_dir(nodes: Seq<Node>, c: int)
    requires
        well_formed(nodes),
        0 <= c < nodes.len(),
        nodes[c].is_dir,
    ensures
        holds_file(nodes, c) == exists|t: int|
            c < t < nodes.len() && nodes[t].parent == c && #[trigger] holds_file(nodes, t),
{
    if holds_file(nodes, c) {
        let f = choose|f: int| 0 <= f < nodes.len() && !nodes[f].is_dir && #[trigger] is_within(nodes, f, c);
        let t = lemma_child_on_path(nodes, f, c);
        assert(holds_file(nodes, t));
    }
    if exists|t: int| c < t < nodes.len() && nodes[t].parent == c && #[trigger] holds_file(nodes, t) {
        let t = choose|t: int| c < t < nodes.len() && nodes[t].parent == c && #[trigger] holds_file(nodes, t);
        let f = choose|f: int| 0 <= f < nodes.len() && !nodes[f].is_dir && #[trigger] is_within(nodes, f, t);
        lemma_within_child(nodes, f, t);
    }
}

/// Node `i` is removed: a directory below the root with no file beneath it.
pub open spec fn is_pruned(nodes: Seq<Node>, i: int) -> bool {
    0 < i < nodes.len() && nodes[i].is_dir && !holds_file(nodes, i)
}

/// Decides which directories are removed. Every directory below the root
/// that has no file anywhere beneath it is removed, and every one that has
/// a file beneath it stays; the root always stays. Removing the marked
/// nodes from the last to the first removes each directory after all of
/// its subdirectories.
pub fn prune_plan(nodes: &Vec<Node>) -> (r: Vec<bool>)
    requires
        well_formed(nodes@),
    ensures
        r.len() == nodes.len(),
        forall|i: int| 0 <= i < r.len() ==> r[i] == is_pruned(nodes@, i),
{
    let n = nodes.len();
    let mut full: Vec<bool> = Vec::new();
    let mut k: usize = 0;
    while k < n
        invariant
            k <= n,
            full.len() == k,
        decreases n - k,
    {
        full.push(false);
        k = k + 1;
    }
    let mut i: usize = n;
    while i > 0
        invariant
            i <= n,
            n == nodes.len(),
            well_formed(nodes@),
            full.len() == n,
            forall|j: int| i <= j < n ==> full[j] == holds_file(nodes@, j),
        decreases i,
    {
        let c = i - 1;
        let mut found = !nodes[c].is_dir;
        let mut j: usize = i;
        while j < n && !found
            invariant
                i <= j <= n,
                c == i - 1,
                n == nodes.len(),
                full.len() == n,
                forall|t: int| i <= t < n ==> full[t] == holds_file(nodes@, t),
                found == (!nodes[c as int].is_dir || exists|t: int|
                    i <= t < j && nodes[t].parent == c && #[trigger] holds_file(nodes@, t)),
            decreases n - j,
        {
            if nodes[j].parent == c && full[j] {
                found = true;
            }
            j = j + 1;
        }
        proof {
            if !nodes[c as int].is_dir {
                assert(is_within(nodes@, c as int, c as int));
                assert(holds_file(nodes@, c as int));
            } else {
                lemma_holds_file_dir(nodes@, c as int);
                if found {
                    let t = choose|t: int|
                        i <= t < j && nodes[t].parent == c && #[trigger] holds_file(nodes@, t);
                    assert(c < t < nodes.len() && nodes[t].parent == c && holds_file(nodes@, t));
                    assert(holds_file(nodes@, c as int));
                } else {
                    assert(j == n);
                    assert forall|t: int| c < t < nodes.len() && nodes[t].parent == c implies !#[trigger] holds_file(nodes@, t) by {
                        assert(i <= t < j);
                    }
                    assert(!holds_file(nodes@, c as int));
                }
            }
        }
        assert(found == holds_file(nodes@, c as int));
        full.set(c, found);
        i = c;
    }
    let mut r: Vec<bool> = Vec::new();
    let mut m: usize = 0;
    while m < n
        invariant
            m <= n,
            n == nodes.len(),
            full.len() == n,
            forall|j: int| 0 <= j < n ==> full[j] == holds_file(nodes@, j),
            r.len() == m,
            forall|j: int| 0 <= j < m ==> r[j] == is_pruned(nodes@, j),
        decreases n - m,
    {
        r.push(m > 0 && nodes[m].is_dir && !full[m]);
        m = m + 1;
    }
    r
}

} // verus!
