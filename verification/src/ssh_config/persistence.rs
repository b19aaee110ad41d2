//! Names of backup files, and which backups are due for removal.
//!
//! A backup of a file is named after it, with `.bak.` and the time in
//! milliseconds at its end. Only the most recent backups are kept.
use crate::number::{decimal, wide_decimal_chars};
use crate::split::strings;
use crate::text::{chars_of, starts_with, string_of};
use vstd::prelude::*;

verus! {

/// How many backups of a file are kept.
pub const BACKUPS_KEPT: usize = 5;

/// What the name of every backup of the file `file_name` begins with.
pub open spec fn backup_prefix(file_name: Seq<char>) -> Seq<char> {
    file_name + ".bak."@
}

/// The name of the backup of `file_name` made at `millis`.
pub open spec fn backup_name(file_name: Seq<char>, millis: nat) -> Seq<char> {
    backup_prefix(file_name) + decimal(millis)
}

/// Whether `a` stands before `b`, or is `b`, in the order of strings: character
/// by character, a proper beginning first.
pub open spec fn text_le(a: Seq<char>, b: Seq<char>) -> bool
    decreases a.len(),
{
    if a.len() == 0 {
        true
    } else if b.len() == 0 {
        false
    } else if a[0] != b[0] {
        (a[0] as u32) < (b[0] as u32)
    } else {
        text_le(a.drop_first(), b.drop_first())
    }
}

/// Whether `v` is in the order of strings.
pub open spec fn ordered(v: Seq<Seq<char>>) -> bool {
    forall|i: int, j: int| 0 <= i <= j < v.len() ==> text_le(v[i], v[j])
}

/// The names among `names` that begin with `prefix`, in their order.
pub open spec fn with_prefix(names: Seq<Seq<char>>, prefix: Seq<char>) -> Seq<Seq<char>>
    decreases names.len(),
{
    if names.len() == 0 {
        seq![]
    } else {
        let before = with_prefix(names.drop_last(), prefix);
        if prefix.is_prefix_of(names.last()) {
            before.push(names.last())
        } else {
            before
        }
    }
}

/// Whether `stale` are the backups to remove, given the names in a directory:
/// of the backups of `file_name`, put in order, all but the last `keep`.
pub open spec fn stale_among(
    stale: Seq<Seq<char>>,
    names: Seq<Seq<char>>,
    file_name: Seq<char>,
    keep: nat,
) -> bool {
    exists|sorted: Seq<Seq<char>>|
        {
            &&& #[trigger] ordered(sorted)
            &&& sorted.to_multiset() == with_prefix(names, backup_prefix(file_name)).to_multiset()
            &&& stale == sorted.take(
                if sorted.len() > keep {
                    sorted.len() - keep
                } else {
                    0
                },
            )
        }
}

/// Puts `names` in order with `sort` of the standard library. The result holds
/// the same names, each as often as before, in the order of strings.
#[verifier::external_body]
fn sort_names(names: &mut Vec<String>)
    ensures
        ordered(strings(final(names)@)),
        strings(final(names)@).to_multiset() == strings(old(names)@).to_multiset(),
{
    names.sort();
}

/// What the name of every backup of the file `file_name` begins with.
pub fn backup_prefix_of(file_name: &str) -> (prefix: String)
    ensures
        prefix@ == backup_prefix(file_name@),
{
    let mut prefix = String::from_str(file_name);
    prefix.append(".bak.");
    prefix
}

/// The name of the backup of `file_name` made at `millis` milliseconds since
/// the epoch.
pub fn backup_name_of(file_name: &str, millis: u128) -> (name: String)
    ensures
        name@ == backup_name(file_name@, millis as nat),
{
    let mut name = backup_prefix_of(file_name);
    let stamp = string_of(wide_decimal_chars(millis).as_slice());
    name.append(stamp.as_str());
    name
}

/// The backups of `file_name` that are to be removed, given the names of the
/// files in its directory: all but the `keep` backups that come last when the
/// names are put in order, which are the most recent.
pub fn stale_backups(names: &Vec<String>, file_name: &str, keep: usize) -> (stale: Vec<String>)
    ensures
        stale_among(strings(stale@), strings(names@), file_name@, keep as nat),
{
    let prefix = backup_prefix_of(file_name);
    let p = chars_of(prefix.as_str());
    let ghost all = strings(names@);
    let mut backups: Vec<String> = Vec::new();
    let mut i: usize = 0;
    proof {
        assert(all.take(0) =~= Seq::<Seq<char>>::empty());
        assert(strings(backups@) =~= Seq::<Seq<char>>::empty());
    }
    while i < names.len()
        invariant
            i <= names.len(),
            all == strings(names@),
            p@ == backup_prefix(file_name@),
            strings(backups@) == with_prefix(all.take(i as int), p@),
        decreases names.len() - i,
    {
        proof {
            let t = all.take(i as int + 1);
            assert(t.drop_last() =~= all.take(i as int));
            assert(t.last() == names@[i as int]@);
        }
        let name = chars_of(names[i].as_str());
        if starts_with(name.as_slice(), p.as_slice()) {
            let copy = names[i].clone();
            proof {
                assert(strings(backups@.push(copy)) =~= strings(backups@).push(copy@));
            }
            backups.push(copy);
        }
        i += 1;
    }
    proof {
        assert(all.take(i as int) =~= all);
    }
    sort_names(&mut backups);
    let ghost sorted = strings(backups@);
    let n: usize = if backups.len() > keep {
        backups.len() - keep
    } else {
        0
    };
    backups.truncate(n);
    proof {
        assert(strings(backups@) =~= sorted.take(n as int));
    }
    backups
}

} // verus!
