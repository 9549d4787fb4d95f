//! Size listing: the entries of a directory, largest first, and a total.
use vstd::prelude::*;

verus! {

/// One child of a listed directory, with its size in bytes (aggregate for a
/// directory).
#[derive(Debug)]
pub struct Entry {
    pub path: String,
    pub size: u64,
    pub is_dir: bool,
}

/// `order` lists each position below `n` exactly once.
pub open spec fn is_permutation(order: Seq<usize>, n: nat) -> bool {
    &&& order.len() == n
    &&& forall|k: int| 0 <= k < order.len() ==> order[k] < n
    &&& forall|k: int, l: int| 0 <= k < l < order.len() ==> order[k] != order[l]
}

/// Sizes read through `order` never grow.
pub open spec fn is_descending(entries: Seq<Entry>, order: Seq<usize>) -> bool {
    forall|k: int, l: int|
        0 <= k < l < order.len() ==> entries[order[k] as int].size >= entries[order[l] as int].size
}

/// The order in which entries are listed: positions into `entries`, each
/// once, by size from largest to smallest.
pub fn size_order(entries: &Vec<Entry>) -> (r: Vec<usize>)
    ensures
        is_permutation(r@, entries.len() as nat),
        is_descending(entries@, r@),
{
    let mut r: Vec<usize> = Vec::new();
    let mut i: usize = 0;
    while i < entries.len()
        invariant
            i <= entries.len(),
            is_permutation(r@, i as nat),
            is_descending(entries@, r@),
        decreases entries.len() - i,
    {
        let s = entries[i].size;
        let mut p: usize = 0;
        while p < r.len() && entries[r[p]].size >= s
            invariant
                p <= r.len(),
                i <= entries.len(),
                i < entries.len(),
                s == entries[i as int].size,
                is_permutation(r@, i as nat),
                forall|k: int| 0 <= k < p ==> entries[r[k] as int].size >= s,
            decreases r.len() - p,
        {
            p = p + 1;
        }
        let ghost before = r@;
        r.insert(p, i);
        assert forall|k: int, l: int| 0 <= k < l < r@.len() implies entries[r@[k] as int].size
            >= entries[r@[l] as int].size by {
            if l < p {
                assert(r@[k] == before[k] && r@[l] == before[l]);
            } else if l == p {
                assert(r@[k] == before[k]);
            } else if k == p {
                assert(r@[l] == before[l - 1]);
                assert(p < before.len());
                assert(entries[before[p as int] as int].size < s);
                assert(entries[before[p as int] as int].size >= entries[before[l - 1] as int].size
                    || l - 1 == p);
            } else if k < p {
                assert(r@[k] == before[k] && r@[l] == before[l - 1]);
            } else {
                assert(r@[k] == before[k - 1] && r@[l] == before[l - 1]);
            }
        }
        assert forall|k: int, l: int| 0 <= k < l < r@.len() implies r@[k] != r@[l] by {
            if k == p {
                assert(r@[l] == before[l - 1]);
            } else if l == p {
                assert(r@[k] == before[k]);
            } else if k < p && l < p {
                assert(r@[k] == before[k] && r@[l] == before[l]);
            } else if k < p {
                assert(r@[k] == before[k] && r@[l] == before[l - 1]);
            } else {
                assert(r@[k] == before[k - 1] && r@[l] == before[l - 1]);
            }
        }
        assert forall|k: int| 0 <= k < r@.len() implies r@[k] < i + 1 by {
            if k < p {
                assert(r@[k] == before[k]);
            } else if k > p {
                assert(r@[k] == before[k - 1]);
            }
        }
        i = i + 1;
    }
    r
}

/// Sum of the sizes of the first `n` entries.
pub open spec fn size_sum(entries: Seq<Entry>, n: int) -> int
    decreases n,
{
    if n <= 0 {
        0
    } else {
        size_sum(entries, n - 1) + entries[n - 1].size
    }
}

/// The total that a listing reports: the aggregate size of the whole
/// directory where it could be measured, else the sum of the listed sizes.
pub fn listing_total(entries: &Vec<Entry>, measured: Option<u64>) -> (r: u128)
    ensures
        r == match measured {
            Some(m) => m as int,
            None => size_sum(entries@, entries.len() as int),
        },
{
    let mut sum: u128 = 0;
    let mut i: usize = 0;
    while i < entries.len()
        invariant
            i <= entries.len(),
            sum == size_sum(entries@, i as int),
            sum <= i * 0xffff_ffff_ffff_ffffu128,
        decreases entries.len() - i,
    {
        proof {
            assert((i + 1) * 0xffff_ffff_ffff_ffffu128 == i * 0xffff_ffff_ffff_ffffu128 + 0xffff_ffff_ffff_ffffu128)
                by (nonlinear_arith);
            assert(i * 0xffff_ffff_ffff_ffffu128 <= 0xffff_ffff_ffff_ffffu128 * 0xffff_ffff_ffff_ffffu128)
                by (nonlinear_arith)
                requires
                    i <= 0xffff_ffff_ffff_ffffu128,
            ;
        }
        sum = sum + entries[i].size as u128;
        i = i + 1;
    }
    match measured {
        Some(m) => m as u128,
        None => sum,
    }
}

/// Human-readable text of a byte count.
pub uninterp spec fn byte_size_text(n: u64) -> Seq<char>;

/// Relies on bytesize's `Display` for `ByteSize`: the text depends on the
/// byte count alone.
#[verifier::external_body]
fn byte_size_string(n: u64) -> (r: String)
    ensures
        r@ == byte_size_text(n),
{
    bytesize::ByteSize(n).to_string()
}

/// The human-readable label of each entry's size, in listing order.
pub fn size_labels(entries: &Vec<Entry>, order: &Vec<usize>) -> (r: Vec<String>)
    requires
        forall|k: int| 0 <= k < order.len() ==> order[k] < entries.len(),
    ensures
        r.len() == order.len(),
        forall|k: int| 0 <= k < r.len() ==> r[k]@ == byte_size_text(entries[order[k] as int].size),
{
    let mut r: Vec<String> = Vec::new();
    let mut k: usize = 0;
    while k < order.len()
        invariant
            k <= order.len(),
            forall|j: int| 0 <= j < order.len() ==> order[j] < entries.len(),
            r.len() == k,
            forall|j: int| 0 <= j < k ==> r[j]@ == byte_size_text(entries[order[j] as int].size),
        decreases order.len() - k,
    {
        r.push(byte_size_string(entries[order[k]].size));
        k = k + 1;
    }
    r
}

/// The human-readable label of a total.
pub fn total_label(n: u64) -> (r: String)
    ensures
        r@ == byte_size_text(n),
{
    byte_size_string(n)
}

} // verus!
