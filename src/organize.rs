//! Date-based organisation: each file directly in a root moves to
//! `<root>/<year>/<month>/<day>/<name>` after its UTC modification date.
use vstd::prelude::*;
use chrono::Datelike;
use crate::text::{decimal, joined, join_path, padded_decimal, zero_padded};

verus! {

/// The UTC calendar date `(year, month, day)` of a Unix time in seconds, or
/// `None` where the date is out of the calendar's range.
pub uninterp spec fn utc_date_of(secs: i64) -> Option<(i32, u32, u32)>;

/// Relies on chrono's `DateTime::<Utc>::from_timestamp` and its `Datelike`
/// accessors: the UTC date of a Unix time; months run from 1 to 12 and days
/// from 1 to 31.
#[verifier::external_body]
fn utc_date(secs: i64) -> (r: Option<(i32, u32, u32)>)
    ensures
        r == utc_date_of(secs),
        r matches Some(d) ==> 1 <= d.1 <= 12 && 1 <= d.2 <= 31,
{
    match chrono::DateTime::<chrono::Utc>::from_timestamp(secs, 0) {
        Some(t) => Some((t.year(), t.month(), t.day())),
        None => None,
    }
}

/// A calendar day, the key of the subdirectory a file moves to.
#[derive(Clone, Copy, Debug, PartialEq, Eq)]
pub struct DatePartition {
    pub year: i32,
    pub month: u32,
    pub day: u32,
}

impl DatePartition {
    /// Month and day lie in their calendar ranges.
    pub open spec fn wf(&self) -> bool {
        1 <= self.month <= 12 && 1 <= self.day <= 31
    }
}

/// The date partition of a modification time given in Unix seconds.
pub fn date_partition(secs: i64) -> (r: Option<DatePartition>)
    ensures
        r is Some == utc_date_of(secs) is Some,
        r matches Some(p) ==> p.wf() && utc_date_of(secs) == Some((p.year, p.month, p.day)),
{
    match utc_date(secs) {
        Some(d) => Some(DatePartition { year: d.0, month: d.1, day: d.2 }),
        None => None,
    }
}

/// The year as at least four digits, zero-padded, a minus sign counting
/// toward the width.
pub open spec fn year_text(y: int) -> Seq<char> {
    if y >= 0 {
        zero_padded(decimal(y as nat), 4)
    } else {
        seq!['-'] + zero_padded(decimal((-y) as nat), 3)
    }
}

/// Month or day as at least two digits, zero-padded.
pub open spec fn two_digits(n: int) -> Seq<char> {
    zero_padded(decimal(n as nat), 2)
}

/// `<root>/<year>/<month>/<day>/<name>`.
pub open spec fn dated_path(root: Seq<char>, p: DatePartition, name: Seq<char>) -> Seq<char> {
    joined(
        joined(joined(joined(root, year_text(p.year as int)), two_digits(p.month as int)), two_digits(p.day as int)),
        name,
    )
}

/// The text of a year in a directory name.
pub fn year_dir_name(y: i32) -> (r: String)
    ensures
        r@ == year_text(y as int),
{
    if y >= 0 {
        padded_decimal(y as u64, 4)
    } else {
        proof {
            reveal_strlit("-");
        }
        let mut r = String::from_str("-");
        let digits = padded_decimal((-(y as i64)) as u64, 3);
        r.append(digits.as_str());
        r
    }
}

/// The directory a file of this date moves to: `<root>/<year>/<month>/<day>`.
pub fn date_dir(root: &str, p: DatePartition) -> (r: String)
    ensures
        r@ == joined(joined(joined(root@, year_text(p.year as int)), two_digits(p.month as int)), two_digits(p.day as int)),
{
    let y = year_dir_name(p.year);
    let m = padded_decimal(p.month as u64, 2);
    let d = padded_decimal(p.day as u64, 2);
    let a = join_path(root, y.as_str());
    let b = join_path(a.as_str(), m.as_str());
    join_path(b.as_str(), d.as_str())
}

/// What organising does with one entry of the root.
pub enum Placement {
    /// A directory: left where it is.
    Stay,
    /// A file: moved into the directory `dir`, to the path `to`.
    Move { dir: String, to: String },
    /// A file whose modification time has no calendar date.
    NoDate,
}

/// Where the file `name` in `root`, modified at Unix time `secs`, moves to.
pub open spec fn target_of(root: Seq<char>, name: Seq<char>, secs: i64) -> Option<Seq<char>> {
    match utc_date_of(secs) {
        Some(d) => Some(dated_path(root, DatePartition { year: d.0, month: d.1, day: d.2 }, name)),
        None => None,
    }
}

/// Decides what happens to the entry `name` directly in `root`: directories
/// stay, files move after their UTC modification date.
pub fn place_entry(root: &str, name: &str, is_file: bool, modified_secs: i64) -> (r: Placement)
    ensures
        !is_file ==> r is Stay,
        is_file && target_of(root@, name@, modified_secs) is None ==> r is NoDate,
        is_file && target_of(root@, name@, modified_secs) is Some ==> (r matches Placement::Move { dir, to }
            && Some(to@) == target_of(root@, name@, modified_secs)
            && to@ == joined(dir@, name@)),
{
    if !is_file {
        return Placement::Stay;
    }
    match date_partition(modified_secs) {
        Some(p) => {
            let dir = date_dir(root, p);
            let to = join_path(dir.as_str(), name);
            Placement::Move { dir, to }
        },
        None => Placement::NoDate,
    }
}

/// A name holds no path separator.
pub open spec fn is_plain_name(s: Seq<char>) -> bool {
    forall|k: int| 0 <= k < s.len() ==> s[k] != '/'
}

proof fn lemma_padded_ends_in_digit(n: nat, w: nat)
    ensures
        zero_padded(decimal(n), w).len() > 0,
        zero_padded(decimal(n), w).last() != '/',
{
    crate::text::lemma_decimal_nonempty(n);
    let s = decimal(n);
    if n >= 10 {
        assert(s.last() == crate::text::digit_char(n % 10));
    } else {
        assert(s.last() == crate::text::digit_char(n));
    }
    let z = zero_padded(s, w);
    if s.len() < w {
        assert(z.last() == s.last());
    }
}

/// A moved file never lands directly in the root: its target is not the
/// root joined with any plain name.
pub proof fn lemma_target_below_root(root: Seq<char>, name: Seq<char>, secs: i64, other: Seq<char>)
    requires
        is_plain_name(other),
    ensures
        target_of(root, name, secs) != Some(joined(root, other)),
{
    if let Some(dt) = utc_date_of(secs) {
        let y = year_text(dt.0 as int);
        let m = two_digits(dt.1 as int);
        let d = two_digits(dt.2 as int);
        if dt.0 >= 0 {
            lemma_padded_ends_in_digit(dt.0 as nat, 4);
        } else {
            lemma_padded_ends_in_digit((-dt.0) as nat, 3);
            assert(y.last() == zero_padded(decimal((-dt.0) as nat), 3).last());
        }
        lemma_padded_ends_in_digit(dt.1 as nat, 2);
        lemma_padded_ends_in_digit(dt.2 as nat, 2);
        let pre = if root.len() == 0 || root.last() == '/' { root } else { root + seq!['/'] };
        let a = joined(root, y);
        assert(a == pre + y);
        assert(a.last() == y.last());
        let b = joined(a, m);
        assert(b == a + seq!['/'] + m);
        let c = joined(b, d);
        assert(c == b + seq!['/'] + d);
        assert(c.last() == d.last());
        let t = joined(c, name);
        assert(t == c + seq!['/'] + name);
        assert(joined(root, other) == pre + other);
        if t == joined(root, other) {
            assert(t[pre.len() + y.len() as int] == '/');
            assert(other[y.len() as int] == t[pre.len() + y.len() as int]);
        }
    }
}

/// Organising twice in a row: after a first run in which every file of the
/// root got a date, every file found directly in the root was put there by
/// that run, and so there is none; a second run leaves every entry where it
/// is. Each listing entry is a plain name, whether it is a file, and its
/// modification time.
pub proof fn lemma_organize_idempotent(
    root: Seq<char>,
    first: Seq<(Seq<char>, bool, i64)>,
    second: Seq<(Seq<char>, bool, i64)>,
)
    requires
        forall|i: int| 0 <= i < first.len() && (#[trigger] first[i]).1 ==> target_of(root, first[i].0, first[i].2) is Some,
        forall|k: int| 0 <= k < second.len() ==> is_plain_name((#[trigger] second[k]).0),
        forall|k: int| 0 <= k < second.len() && (#[trigger] second[k]).1 ==> exists|i: int|
            0 <= i < first.len() && (#[trigger] first[i]).1 && target_of(root, first[i].0, first[i].2) == Some(
                joined(root, second[k].0),
            ),
    ensures
        forall|k: int| 0 <= k < second.len() ==> !(#[trigger] second[k]).1,
{
    assert forall|k: int| 0 <= k < second.len() implies !(#[trigger] second[k]).1 by {
        if second[k].1 {
            let i = choose|i: int|
                0 <= i < first.len() && (#[trigger] first[i]).1 && target_of(root, first[i].0, first[i].2) == Some(
                    joined(root, second[k].0),
                );
            lemma_target_below_root(root, first[i].0, first[i].2, second[k].0);
        }
    }
}

} // verus!
