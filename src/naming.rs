//! Collision-safe destination names for files copied into a flat directory.
use vstd::prelude::*;
use crate::text::{
    decimal, lemma_decimal_injective, lemma_joined_injective, lemma_stem_ext, lemma_decimal_nonempty, extension_of, joined, join_path, push_decimal, split_name, stem_of};

verus! {

/// Longest destination path, in characters, kept with its original name.
pub const MAX_PATH_CHARS: usize = 255;

/// Short stand-in computed from a file name that is too long to keep.
pub uninterp spec fn name_hash(name: Seq<char>) -> Seq<char>;

/// Relies on std's `SipHasher` (fixed keys) over the bytes of the name, as
/// `OsStr` hashes them, printed as lowercase hex: the text depends on the
/// name alone.
#[verifier::external_body]
#[allow(deprecated)]
fn hash_filename(name: &str) -> (r: String)
    ensures
        r@ == name_hash(name@),
{
    let mut hasher = std::hash::SipHasher::new();
    std::hash::Hash::hash(name.as_bytes(), &mut hasher);
    format!("{:x}", std::hash::Hasher::finish(&hasher))
}

/// A dot followed by the extension, or nothing where there is none.
pub open spec fn dot_ext(ext: Option<Seq<char>>) -> Seq<char> {
    match ext {
        Some(e) => seq!['.'] + e,
        None => Seq::empty(),
    }
}

/// The name tried first: the original one, or where the joined path would
/// be longer than `MAX_PATH_CHARS`, the hashed name with suffix `_1` and
/// the original extension.
pub open spec fn first_name(dir: Seq<char>, name: Seq<char>, hashed: Seq<char>) -> Seq<char> {
    if joined(dir, name).len() <= MAX_PATH_CHARS {
        name
    } else {
        hashed + seq!['_', '1'] + dot_ext(extension_of(name))
    }
}

/// The `k`-th destination path tried: the first name for `k == 0`, then
/// the first name's stem with suffix `_k` before its extension.
pub open spec fn candidate(dir: Seq<char>, name: Seq<char>, hashed: Seq<char>, k: nat) -> Seq<char> {
    let f = first_name(dir, name, hashed);
    if k == 0 {
        joined(dir, f)
    } else {
        joined(dir, stem_of(f) + seq!['_'] + decimal(k) + dot_ext(extension_of(f)))
    }
}

fn append_dot_ext(out: &mut String, ext: Option<&str>)
    ensures
        final(out)@ == old(out)@ + dot_ext(
            match ext {
                Some(e) => Some(e@),
                None => None,
            },
        ),
{
    proof {
        reveal_strlit(".");
    }
    match ext {
        Some(e) => {
            out.append(".");
            out.append(e);
        },
        None => {
            assert(out@ =~= out@ + Seq::<char>::empty());
        },
    }
}

/// The `k`-th destination path tried for `file_name` in `dir`, where
/// `hashed` stands for the name when it is too long.
pub fn candidate_with_hash(dir: &str, file_name: &str, hashed: &str, k: u64) -> (r: String)
    ensures
        r@ == candidate(dir@, file_name@, hashed@, k as nat),
{
    proof {
        reveal_strlit("_1");
        reveal_strlit("_");
    }
    let full = join_path(dir, file_name);
    let first = if full.as_str().unicode_len() <= MAX_PATH_CHARS {
        String::from_str(file_name)
    } else {
        let mut f = String::from_str(hashed);
        f.append("_1");
        let (_, ext) = split_name(file_name);
        append_dot_ext(&mut f, ext);
        f
    };
    assert(first@ == first_name(dir@, file_name@, hashed@));
    if k == 0 {
        return join_path(dir, first.as_str());
    }
    let (stem, ext) = split_name(first.as_str());
    let mut name = String::from_str(stem);
    name.append("_");
    push_decimal(&mut name, k);
    append_dot_ext(&mut name, ext);
    join_path(dir, name.as_str())
}

/// The `k`-th destination path tried for `file_name` in `dir`. The caller
/// tries `k = 0, 1, 2, ...` and takes the first path that is free.
pub fn candidate_path(dir: &str, file_name: &str, k: u64) -> (r: String)
    ensures
        r@ == candidate(dir@, file_name@, name_hash(file_name@), k as nat),
{
    let full = join_path(dir, file_name);
    if full.as_str().unicode_len() <= MAX_PATH_CHARS {
        candidate_with_hash(dir, file_name, "", k)
    } else {
        let hashed = hash_filename(file_name);
        candidate_with_hash(dir, file_name, hashed.as_str(), k)
    }
}

/// The paths tried for one file name are pairwise distinct, so the search
/// for a free destination never offers the same path twice and two files of
/// one name never land on one path.
pub proof fn lemma_candidates_distinct(
    dir: Seq<char>,
    name: Seq<char>,
    hashed: Seq<char>,
    k1: nat,
    k2: nat,
)
    requires
        k1 != k2,
    ensures
        candidate(dir, name, hashed, k1) != candidate(dir, name, hashed, k2),
{
    let f = first_name(dir, name, hashed);
    let tail = dot_ext(extension_of(f));
    lemma_stem_ext(f);
    assert(f.len() == stem_of(f).len() + tail.len());
    let n1 = stem_of(f) + seq!['_'] + decimal(k1) + tail;
    let n2 = stem_of(f) + seq!['_'] + decimal(k2) + tail;
    if candidate(dir, name, hashed, k1) == candidate(dir, name, hashed, k2) {
        if k1 == 0 {
            lemma_joined_injective(dir, f, n2);
            assert(decimal(k2).len() >= 1) by { lemma_decimal_nonempty(k2) }
        } else if k2 == 0 {
            lemma_joined_injective(dir, n1, f);
            assert(decimal(k1).len() >= 1) by { lemma_decimal_nonempty(k1) }
        } else {
            lemma_joined_injective(dir, n1, n2);
            let s = stem_of(f).len() as int + 1;
            assert(decimal(k1).len() == decimal(k2).len());
            assert(decimal(k1) =~= n1.subrange(s, s + decimal(k1).len()));
            assert(decimal(k2) =~= n2.subrange(s, s + decimal(k2).len()));
            lemma_decimal_injective(k1, k2);
        }
    }
}

} // verus!
