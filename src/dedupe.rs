//! Duplicate detection: files are grouped by size, same-size files are
//! hashed, and the first file registered under a hash is the keeper.
use vstd::prelude::*;

verus! {

/// File `i` shares its size with at least one other file of the listing.
pub open spec fn has_twin(sizes: Seq<u64>, i: int) -> bool {
    exists|j: int| 0 <= j < sizes.len() && j != i && sizes[j] == sizes[i]
}

/// File `i` is deleted: it has a twin in size, its hash is known, and an
/// earlier file with a twin in size was registered under the same hash.
pub open spec fn is_discarded(sizes: Seq<u64>, hashes: Seq<Option<Seq<char>>>, i: int) -> bool {
    &&& has_twin(sizes, i)
    &&& hashes[i] is Some
    &&& exists|j: int| 0 <= j < i && has_twin(sizes, j) && hashes[j] == hashes[i]
}

/// Lowercase hex text of the SHA-256 digest of a content.
pub uninterp spec fn sha256_hex(data: Seq<u8>) -> Seq<char>;

/// Relies on sha2's `Sha256::digest`, printed as lowercase hex: the text
/// depends on the bytes alone.
#[verifier::external_body]
fn sha256_digest(data: &[u8]) -> (r: String)
    ensures
        r@ == sha256_hex(data@),
{
    format!("{:x}", <sha2::Sha256 as sha2::Digest>::digest(data))
}

/// The content hash under which a file's bytes are registered.
pub fn content_hash(data: &[u8]) -> (r: String)
    ensures
        r@ == sha256_hex(data@),
{
    sha256_digest(data)
}

/// No file before `i` has the size of file `i`.
pub open spec fn is_first_of_size(sizes: Seq<u64>, i: int) -> bool {
    forall|j: int| 0 <= j < i ==> sizes[j] != sizes[i]
}

/// The groups of files that are hashed: each group holds, in listing order,
/// all files of one size, for each size that two or more files share.
pub fn size_groups(sizes: &Vec<u64>) -> (r: Vec<Vec<usize>>)
    ensures
        forall|g: int| 0 <= g < r.len() ==> #[trigger] r[g].len() >= 2,
        forall|g: int, k: int|
            0 <= g < r.len() && 0 <= k < r[g].len() ==> #[trigger] r[g][k] < sizes.len()
                && sizes[r[g][k] as int] == sizes[r[g][0] as int],
        forall|g: int, k: int, l: int|
            0 <= g < r.len() && 0 <= k < l < r[g].len() ==> #[trigger] r[g][k] < #[trigger] r[g][l],
        forall|g1: int, g2: int|
            0 <= g1 < g2 < r.len() ==> sizes[r[g1][0] as int] != sizes[r[g2][0] as int],
        forall|i: int|
            0 <= i < sizes.len() && has_twin(sizes@, i) ==> exists|g: int, k: int|
                0 <= g < r.len() && 0 <= k < r[g].len() && #[trigger] r[g][k] == i,
{
    let n = sizes.len();
    let mut r: Vec<Vec<usize>> = Vec::new();
    let mut i: usize = 0;
    while i < n
        invariant
            i <= n,
            n == sizes.len(),
            forall|g: int| 0 <= g < r.len() ==> #[trigger] r[g].len() >= 2,
            forall|g: int, k: int|
                0 <= g < r.len() && 0 <= k < r[g].len() ==> #[trigger] r[g][k] < n
                    && sizes[r[g][k] as int] == sizes[r[g][0] as int],
            forall|g: int, k: int, l: int|
                0 <= g < r.len() && 0 <= k < l < r[g].len() ==> #[trigger] r[g][k] < #[trigger] r[g][l],
            forall|g: int| 0 <= g < r.len() ==> r[g][0] < i && is_first_of_size(sizes@, #[trigger] r[g][0] as int),
            forall|g1: int, g2: int| 0 <= g1 < g2 < r.len() ==> #[trigger] r[g1][0] < #[trigger] r[g2][0],
            forall|g: int, j: int|
                #![trigger r[g][0], sizes[j]]
                0 <= g < r.len() && 0 <= j < n && sizes[j] == sizes[r[g][0] as int] ==> exists|k: int|
                    0 <= k < r[g].len() && #[trigger] r[g][k] == j,
            forall|j: int|
                0 <= j < i && has_twin(sizes@, j) ==> exists|g: int, k: int|
                    0 <= g < r.len() && 0 <= k < r[g].len() && #[trigger] r[g][k] == j,
        decreases n - i,
    {
        let ghost before = r@;
        if twin_at(sizes, i) {
            let mut first = true;
            let mut j: usize = 0;
            while j < i
                invariant
                    j <= i,
                    i < n,
                    n == sizes.len(),
                    first == forall|t: int| 0 <= t < j ==> sizes[t] != sizes[i as int],
                decreases i - j,
            {
                if sizes[j] == sizes[i] {
                    first = false;
                }
                j = j + 1;
            }
            if first {
                let mut grp: Vec<usize> = Vec::new();
                grp.push(i);
                assert(grp[0] == i);
                let mut t: usize = i + 1;
                while t < n
                    invariant
                        i < t <= n,
                        n == sizes.len(),
                        grp.len() >= 1,
                        grp[0] == i,
                        forall|k: int| 0 <= k < grp.len() ==> i <= #[trigger] grp[k] < t && sizes[grp[k] as int] == sizes[i as int],
                        forall|k: int, l: int| 0 <= k < l < grp.len() ==> #[trigger] grp[k] < #[trigger] grp[l],
                        forall|u: int| i <= u < t && sizes[u] == sizes[i as int] ==> exists|k: int|
                            0 <= k < grp.len() && #[trigger] grp[k] == u,
                    decreases n - t,
                {
                    if sizes[t] == sizes[i] {
                        let ghost g0 = grp@;
                        grp.push(t);
                        assert forall|u: int| i <= u < t + 1 && sizes[u] == sizes[i as int] implies exists|k: int|
                            0 <= k < grp.len() && #[trigger] grp[k] == u by {
                            if u < t {
                                let k = choose|k: int| 0 <= k < g0.len() && #[trigger] g0[k] == u;
                                assert(grp[k] == u);
                            } else {
                                assert(grp[grp.len() - 1] == u);
                            }
                        }
                    }
                    t = t + 1;
                }
                let ghost gv = grp@;
                proof {
                    let w = choose|w: int| 0 <= w < sizes.len() && w != i && sizes[w] == sizes[i as int];
                    assert(w > i);
                    let k = choose|k: int| 0 <= k < gv.len() && #[trigger] gv[k] == w;
                    assert(k != 0);
                }
                r.push(grp);
                assert(r[r.len() - 1]@ == gv);
            }
        }
        proof {
            assert forall|g: int| 0 <= g < before.len() implies r[g] == before[g] by {}
            assert forall|j: int|
                0 <= j < i + 1 && has_twin(sizes@, j) implies exists|g: int, k: int|
                    0 <= g < r.len() && 0 <= k < r[g].len() && #[trigger] r[g][k] == j by {
                if j < i {
                    let (g, k) = choose|g: int, k: int|
                        0 <= g < before.len() && 0 <= k < before[g].len() && #[trigger] before[g][k] == j;
                    assert(r[g][k] == j);
                } else if r.len() > before.len() {
                    assert(r[before.len() as int][0] == j);
                } else {
                    let f = choose|f: int| 0 <= f < i && sizes[f] == sizes[j];
                    assert(has_twin(sizes@, f));
                    let (g, k) = choose|g: int, k: int|
                        0 <= g < before.len() && 0 <= k < before[g].len() && #[trigger] before[g][k] == f;
                    assert(sizes[j] == sizes[r[g][0] as int]);
                    let k2 = choose|k2: int| 0 <= k2 < r[g].len() && #[trigger] r[g][k2] == j;
                }
            }
        }
        i = i + 1;
    }
    proof {
        assert forall|g1: int, g2: int|
            0 <= g1 < g2 < r.len() implies sizes[r[g1][0] as int] != sizes[r[g2][0] as int] by {
            if sizes[r[g1][0] as int] == sizes[r[g2][0] as int] {
                assert(r[g1][0] < r[g2][0]);
                assert(is_first_of_size(sizes@, r[g2][0] as int));
            }
        }
    }
    r
}

/// Registry from content hash to the file kept for it, in order of first
/// registration.
pub struct Registry {
    entries: Vec<(String, usize)>,
}

impl View for Registry {
    type V = Seq<(Seq<char>, usize)>;

    closed spec fn view(&self) -> Seq<(Seq<char>, usize)> {
        self.entries@.map_values(|e: (String, usize)| (e.0@, e.1))
    }
}

impl Registry {
    /// The registry holds an entry for hash `h`.
    pub open spec fn holds(&self, h: Seq<char>) -> bool {
        exists|i: int| 0 <= i < self@.len() && #[trigger] self@[i].0 == h
    }

    /// No hash is registered twice.
    pub open spec fn wf(&self) -> bool {
        forall|i: int, j: int|
            0 <= i < j < self@.len() ==> #[trigger] self@[i].0 != #[trigger] self@[j].0
    }

    pub fn new() -> (r: Registry)
        ensures
            r.wf(),
            r@ == Seq::<(Seq<char>, usize)>::empty(),
    {
        let r = Registry { entries: Vec::new() };
        assert(r@ =~= Seq::<(Seq<char>, usize)>::empty());
        r
    }

    /// Registers `file` under `hash` unless the hash is already held.
    /// Returns whether the hash was already held, that is, whether `file`
    /// is a duplicate of a keeper.
    pub fn observe(&mut self, hash: String, file: usize) -> (dup: bool)
        requires
            old(self).wf(),
        ensures
            final(self).wf(),
            dup == old(self).holds(hash@),
            dup ==> final(self)@ == old(self)@,
            !dup ==> final(self)@ == old(self)@.push((hash@, file)),
    {
        let mut i: usize = 0;
        while i < self.entries.len()
            invariant
                self.wf(),
                i <= self.entries.len(),
                forall|k: int| 0 <= k < i ==> self@[k].0 != hash@,
            decreases self.entries.len() - i,
        {
            if self.entries[i].0.eq(&hash) {
                assert(self@[i as int].0 == hash@);
                return true;
            }
            i = i + 1;
        }
        let ghost before = self@;
        self.entries.push((hash, file));
        assert(self@ =~= before.push((hash@, file)));
        false
    }

    /// The registered hashes with their keepers, in order of registration.
    pub fn keepers(&self) -> (r: &Vec<(String, usize)>)
        ensures
            r@.map_values(|e: (String, usize)| (e.0@, e.1)) == self@,
    {
        &self.entries
    }
}

/// Decides, for each file of a directory listing, whether it is deleted as a
/// duplicate. `sizes[i]` is the size of file `i` and `hashes[i]` its content
/// hash, `None` where the file could not be read. Files are registered in
/// listing order; only files that share their size with another are hashed.
pub fn duplicate_plan(sizes: &Vec<u64>, hashes: &Vec<Option<String>>) -> (r: Vec<bool>)
    requires
        sizes.len() == hashes.len(),
    ensures
        r.len() == sizes.len(),
        forall|i: int| 0 <= i < r.len() ==> r[i] == is_discarded(sizes@, hashes.deep_view(), i),
{
    let ghost hv = hashes.deep_view();
    let mut reg = Registry::new();
    let mut r: Vec<bool> = Vec::new();
    let mut i: usize = 0;
    while i < sizes.len()
        invariant
            i <= sizes.len(),
            sizes.len() == hashes.len(),
            hv == hashes.deep_view(),
            reg.wf(),
            r.len() == i,
            forall|k: int| 0 <= k < i ==> r[k] == is_discarded(sizes@, hv, k),
            forall|h: Seq<char>|
                reg.holds(h) <==> exists|j: int|
                    0 <= j < i && has_twin(sizes@, j) && #[trigger] hv[j] == Some(h),
        decreases sizes.len() - i,
    {
        let twin = twin_at(sizes, i);
        let mut drop = false;
        if twin {
            match &hashes[i] {
                Some(h) => {
                    assert(hv[i as int] == Some(h@));
                    let ghost old_reg = reg;
                    drop = reg.observe(h.clone(), i);
                    assert forall|g: Seq<char>|
                        reg.holds(g) <==> exists|j: int|
                            0 <= j < i + 1 && has_twin(sizes@, j) && #[trigger] hv[j] == Some(g)
                    by {
                        if g == h@ {
                            assert(hv[i as int] == Some(g));
                            if !drop {
                                assert(reg@[old_reg@.len() as int].0 == g);
                            }
                        } else {
                            if reg.holds(g) {
                                let k = choose|k: int| 0 <= k < reg@.len() && #[trigger] reg@[k].0 == g;
                                assert(old_reg@[k].0 == g);
                            }
                            if old_reg.holds(g) {
                                let k = choose|k: int| 0 <= k < old_reg@.len() && #[trigger] old_reg@[k].0 == g;
                                assert(reg@[k].0 == g);
                            }
                        }
                    }
                },
                None => {},
            }
        }
        r.push(drop);
        i = i + 1;
    }
    r
}

/// Whether file `i` shares its size with another file.
fn twin_at(sizes: &Vec<u64>, i: usize) -> (r: bool)
    requires
        i < sizes.len(),
    ensures
        r == has_twin(sizes@, i as int),
{
    let mut j: usize = 0;
    while j < sizes.len()
        invariant
            i < sizes.len(),
            j <= sizes.len(),
            forall|k: int| 0 <= k < j && k != i ==> sizes[k] != sizes[i as int],
        decreases sizes.len() - j,
    {
        if j != i && sizes[j] == sizes[i] {
            return true;
        }
        j = j + 1;
    }
    false
}

/// After a deduplication, each hash seen among files that share their size
/// with another is held by exactly one surviving file: a deleted file always
/// has an earlier survivor with the same hash, no two survivors with a twin
/// in size share a hash, and a file alone in its size, or one whose hash is
/// unknown, is never deleted.
pub proof fn lemma_one_keeper_per_hash(sizes: Seq<u64>, hashes: Seq<Option<Seq<char>>>)
    requires
        sizes.len() == hashes.len(),
    ensures
        forall|i: int| 0 <= i < sizes.len() && !has_twin(sizes, i) ==> !is_discarded(sizes, hashes, i),
        forall|i: int| 0 <= i < sizes.len() && hashes[i] is None ==> !is_discarded(sizes, hashes, i),
        forall|i: int, j: int|
            #![trigger hashes[i], hashes[j]]
            0 <= i < j < sizes.len() && has_twin(sizes, i) && has_twin(sizes, j) && hashes[i] is Some
                && hashes[i] == hashes[j] ==> is_discarded(sizes, hashes, j),
        forall|i: int|
            0 <= i < sizes.len() && #[trigger] is_discarded(sizes, hashes, i) ==> exists|j: int|
                0 <= j < i && has_twin(sizes, j) && hashes[j] == hashes[i] && !is_discarded(
                    sizes,
                    hashes,
                    j,
                ),
{
    assert forall|i: int|
        0 <= i < sizes.len() && #[trigger] is_discarded(sizes, hashes, i) implies exists|j: int|
            0 <= j < i && has_twin(sizes, j) && hashes[j] == hashes[i] && !is_discarded(
                sizes,
                hashes,
                j,
            ) by {
        lemma_survivor_before(sizes, hashes, i);
    }
}

proof fn lemma_survivor_before(sizes: Seq<u64>, hashes: Seq<Option<Seq<char>>>, i: int)
    requires
        sizes.len() == hashes.len(),
        0 <= i < sizes.len(),
        is_discarded(sizes, hashes, i),
    ensures
        exists|j: int|
            0 <= j < i && has_twin(sizes, j) && hashes[j] == hashes[i] && !is_discarded(
                sizes,
                hashes,
                j,
            ),
    decreases i,
{
    let j = choose|j: int| 0 <= j < i && has_twin(sizes, j) && hashes[j] == hashes[i];
    if is_discarded(sizes, hashes, j) {
        lemma_survivor_before(sizes, hashes, j);
        let k = choose|k: int|
            0 <= k < j && has_twin(sizes, k) && hashes[k] == hashes[j] && !is_discarded(
                sizes,
                hashes,
                k,
            );
        assert(0 <= k < i && has_twin(sizes, k) && hashes[k] == hashes[i]);
    }
}

/// Running deduplication again over files that survived a first run, with
/// their sizes and hashes unchanged, deletes nothing. The second listing
/// `sizes2`/`hashes2` is any selection of survivors, kept in listing order
/// by the strictly increasing positions `at`.
pub proof fn lemma_dedupe_idempotent(
    sizes: Seq<u64>,
    hashes: Seq<Option<Seq<char>>>,
    at: Seq<int>,
    sizes2: Seq<u64>,
    hashes2: Seq<Option<Seq<char>>>,
)
    requires
        sizes.len() == hashes.len(),
        at.len() == sizes2.len(),
        at.len() == hashes2.len(),
        forall|k: int| 0 <= k < at.len() ==> 0 <= #[trigger] at[k] < sizes.len(),
        forall|k: int, l: int| 0 <= k < l < at.len() ==> #[trigger] at[k] < #[trigger] at[l],
        forall|k: int| 0 <= k < at.len() ==> !is_discarded(sizes, hashes, #[trigger] at[k]),
        forall|k: int| 0 <= k < at.len() ==> sizes2[k] == sizes[#[trigger] at[k]],
        forall|k: int| 0 <= k < at.len() ==> hashes2[k] == hashes[#[trigger] at[k]],
    ensures
        forall|k: int| 0 <= k < at.len() ==> !is_discarded(sizes2, hashes2, k),
{
    assert forall|k: int| 0 <= k < at.len() implies !is_discarded(sizes2, hashes2, k) by {
        if is_discarded(sizes2, hashes2, k) {
            let t = choose|t: int| 0 <= t < sizes2.len() && t != k && sizes2[t] == sizes2[k];
            assert(at[t] != at[k]);
            assert(has_twin(sizes, at[k]));
            let j = choose|j: int| 0 <= j < k && has_twin(sizes2, j) && hashes2[j] == hashes2[k];
            let u = choose|u: int| 0 <= u < sizes2.len() && u != j && sizes2[u] == sizes2[j];
            assert(at[u] != at[j]);
            assert(has_twin(sizes, at[j]));
            assert(at[j] < at[k]);
            assert(is_discarded(sizes, hashes, at[k]));
        }
    }
}

} // verus!
