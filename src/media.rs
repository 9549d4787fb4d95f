//! Which files count as media for the dump: those whose extension, in lower
//! case, is on a fixed allow-list of image, video and audio formats.
use vstd::prelude::*;
use crate::text::{extension_of, split_name};

verus! {

/// Lower-case form of a text.
pub uninterp spec fn lower_of(s: Seq<char>) -> Seq<char>;

/// Relies on `str::to_lowercase`: the result depends on the characters alone.
#[verifier::external_body]
fn lowercase(s: &str) -> (r: String)
    ensures
        r@ == lower_of(s@),
{
    s.to_lowercase()
}

/// The allow-list: jpg, jpeg, png, gif, bmp, tiff, mp4, avi, mkv, mov, wmv,
/// flv, m4a, mp3 and 3gp.
pub open spec fn is_media_extension(e: Seq<char>) -> bool {
    ||| e == seq!['j', 'p', 'g']
    ||| e == seq!['j', 'p', 'e', 'g']
    ||| e == seq!['p', 'n', 'g']
    ||| e == seq!['g', 'i', 'f']
    ||| e == seq!['b', 'm', 'p']
    ||| e == seq!['t', 'i', 'f', 'f']
    ||| e == seq!['m', 'p', '4']
    ||| e == seq!['a', 'v', 'i']
    ||| e == seq!['m', 'k', 'v']
    ||| e == seq!['m', 'o', 'v']
    ||| e == seq!['w', 'm', 'v']
    ||| e == seq!['f', 'l', 'v']
    ||| e == seq!['m', '4', 'a']
    ||| e == seq!['m', 'p', '3']
    ||| e == seq!['3', 'g', 'p']
}

/// A file name is a media name when it has an extension whose lower-case
/// form is on the allow-list.
pub open spec fn is_media_name(name: Seq<char>) -> bool {
    extension_of(name) matches Some(e) && is_media_extension(lower_of(e))
}

/// Whether two texts hold the same characters.
pub fn same_text(a: &str, b: &str) -> (r: bool)
    ensures
        r == (a@ == b@),
{
    let n = a.unicode_len();
    if n != b.unicode_len() {
        return false;
    }
    let mut i: usize = 0;
    while i < n
        invariant
            n == a@.len(),
            n == b@.len(),
            i <= n,
            forall|k: int| 0 <= k < i ==> a@[k] == b@[k],
        decreases n - i,
    {
        if a.get_char(i) != b.get_char(i) {
            return false;
        }
        i = i + 1;
    }
    assert(a@ =~= b@);
    true
}

/// Whether an extension, already in lower case, is on the allow-list.
pub fn is_media_extension_text(e: &str) -> (r: bool)
    ensures
        r == is_media_extension(e@),
{
    proof {
        reveal_strlit("jpg");
        assert("jpg"@ =~= seq!['j', 'p', 'g']);
        reveal_strlit("jpeg");
        assert("jpeg"@ =~= seq!['j', 'p', 'e', 'g']);
        reveal_strlit("png");
        assert("png"@ =~= seq!['p', 'n', 'g']);
        reveal_strlit("gif");
        assert("gif"@ =~= seq!['g', 'i', 'f']);
        reveal_strlit("bmp");
        assert("bmp"@ =~= seq!['b', 'm', 'p']);
        reveal_strlit("tiff");
        assert("tiff"@ =~= seq!['t', 'i', 'f', 'f']);
        reveal_strlit("mp4");
        assert("mp4"@ =~= seq!['m', 'p', '4']);
        reveal_strlit("avi");
        assert("avi"@ =~= seq!['a', 'v', 'i']);
        reveal_strlit("mkv");
        assert("mkv"@ =~= seq!['m', 'k', 'v']);
        reveal_strlit("mov");
        assert("mov"@ =~= seq!['m', 'o', 'v']);
        reveal_strlit("wmv");
        assert("wmv"@ =~= seq!['w', 'm', 'v']);
        reveal_strlit("flv");
        assert("flv"@ =~= seq!['f', 'l', 'v']);
        reveal_strlit("m4a");
        assert("m4a"@ =~= seq!['m', '4', 'a']);
        reveal_strlit("mp3");
        assert("mp3"@ =~= seq!['m', 'p', '3']);
        reveal_strlit("3gp");
        assert("3gp"@ =~= seq!['3', 'g', 'p']);
    }
    same_text(e, "jpg") || same_text(e, "jpeg") || same_text(e, "png") || same_text(e, "gif")
        || same_text(e, "bmp") || same_text(e, "tiff") || same_text(e, "mp4") || same_text(
        e,
        "avi",
    ) || same_text(e, "mkv") || same_text(e, "mov") || same_text(e, "wmv") || same_text(e, "flv")
        || same_text(e, "m4a") || same_text(e, "mp3") || same_text(e, "3gp")
}

/// Whether the dump moves a file of this name.
pub fn is_media_file(file_name: &str) -> (r: bool)
    ensures
        r == is_media_name(file_name@),
{
    let (_, ext) = split_name(file_name);
    match ext {
        Some(e) => {
            let lowered = lowercase(e);
            is_media_extension_text(lowered.as_str())
        },
        None => false,
    }
}

} // verus!
