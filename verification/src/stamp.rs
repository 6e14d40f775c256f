//! Noticing that the store has changed.
use vstd::prelude::*;

use crate::store::{has_markdown_name, is_markdown};

verus! {

/// What a look at one entry of the store gave: its name, and when it was last
/// written, in nanoseconds since the epoch, where that could be told.
pub struct Stat {
    pub name: Vec<u8>,
    pub modified: Option<i128>,
}

/// The stamp of a store about which nothing can be told: the epoch.
pub const EPOCH: i128 = 0;

/// The time that an entry counts with: that of a markdown file.
pub open spec fn counted(s: Stat) -> Option<i128> {
    if is_markdown(s.name@) {
        s.modified
    } else {
        None
    }
}

/// The time of the directory itself.
pub open spec fn dir_time(dir: Option<i128>) -> i128 {
    match dir {
        Some(t) => t,
        None => EPOCH,
    }
}

/// `t` is the newest of the times of the directory and of its markdown files.
pub open spec fn is_newest(dir: Option<i128>, stats: Seq<Stat>, t: i128) -> bool {
    &&& t >= dir_time(dir)
    &&& forall|i: int|
        0 <= i < stats.len() ==> (counted(#[trigger] stats[i]) matches Some(m) ==> m <= t)
    &&& t == dir_time(dir) || exists|i: int|
        0 <= i < stats.len() && counted(#[trigger] stats[i]) == Some(t)
}

/// The newest time among the store's directory, where it can be told, and the
/// markdown files in it. Both are needed: writing into a file leaves the
/// directory's time alone, and removing one leaves those of the others.
pub fn store_stamp(dir: Option<i128>, stats: &Vec<Stat>) -> (newest: i128)
    ensures
        is_newest(dir, stats@, newest),
{
    let mut newest: i128 = match dir {
        Some(t) => t,
        None => EPOCH,
    };
    let n: usize = stats.len();
    let mut i: usize = 0;
    while i < n
        invariant
            n == stats@.len(),
            i <= n,
            newest >= dir_time(dir),
            forall|k: int|
                0 <= k < i ==> (counted(#[trigger] stats@[k]) matches Some(m) ==> m <= newest),
            newest == dir_time(dir) || exists|k: int|
                0 <= k < i && counted(#[trigger] stats@[k]) == Some(newest),
        decreases n - i,
    {
        if has_markdown_name(stats[i].name.as_slice()) {
            match stats[i].modified {
                Some(m) => {
                    if m > newest {
                        newest = m;
                        proof {
                            assert(counted(stats@[i as int]) == Some(newest));
                        }
                    }
                },
                None => {},
            }
        }
        i = i + 1;
    }
    newest
}

/// The stamp is one time.
pub proof fn lemma_newest_unique(dir: Option<i128>, stats: Seq<Stat>, s: i128, t: i128)
    requires
        is_newest(dir, stats, s),
        is_newest(dir, stats, t),
    ensures
        s == t,
{
}

/// A change is noticed: when the directory has been written after the stamp
/// was taken (a file came, went or was renamed), or a markdown file has, the
/// next stamp is newer.
pub proof fn law_changes_move_the_stamp(
    stamp: i128,
    dir: Option<i128>,
    stats: Seq<Stat>,
    next: i128,
)
    requires
        is_newest(dir, stats, next),
        dir_time(dir) > stamp || exists|i: int|
            0 <= i < stats.len() && (counted(#[trigger] stats[i]) matches Some(m) && m > stamp),
    ensures
        next > stamp,
{
}

/// A store that is left alone keeps its stamp: a look that finds the same
/// times gives the same stamp.
pub proof fn law_stamp_rests(
    dir: Option<i128>,
    stats: Seq<Stat>,
    again: Seq<Stat>,
    stamp: i128,
    next: i128,
)
    requires
        is_newest(dir, stats, stamp),
        is_newest(dir, again, next),
        again.len() == stats.len(),
        forall|i: int|
            0 <= i < stats.len() ==> counted(#[trigger] again[i]) == counted(stats[i]),
    ensures
        next == stamp,
{
    assert forall|i: int| 0 <= i < stats.len() implies (counted(#[trigger] stats[i]) matches Some(
        m,
    ) ==> m <= next) by {
        assert(counted(again[i]) == counted(stats[i]));
    }
    assert(is_newest(dir, again, stamp)) by {
        if stamp != dir_time(dir) {
            let i = choose|i: int|
                0 <= i < stats.len() && counted(#[trigger] stats[i]) == Some(stamp);
            assert(counted(again[i]) == Some(stamp));
        }
    }
    lemma_newest_unique(dir, again, stamp, next);
}

/// Only markdown files count, and each with its own time: a file of another
/// kind, or one whose time cannot be told, does not move the stamp, and a
/// markdown file moves it exactly to its time where that is newer.
pub proof fn law_markdown_files_count(dir: Option<i128>, stats: Seq<Stat>, s: Stat, t: i128)
    requires
        is_newest(dir, stats, t),
    ensures
        !is_markdown(s.name@) || s.modified is None ==> is_newest(dir, stats.push(s), t),
        is_markdown(s.name@) && (s.modified matches Some(m) && m <= t) ==> is_newest(
            dir,
            stats.push(s),
            t,
        ),
        is_markdown(s.name@) && (s.modified matches Some(m) && m > t) ==> is_newest(
            dir,
            stats.push(s),
            s.modified.unwrap(),
        ),
        is_newest(dir, Seq::empty(), match dir {
            Some(d) => d,
            None => 0,
        }),
{
    let all = stats.push(s);
    let n = stats.len() as int;
    assert(all[n] == s);
    assert forall|i: int| 0 <= i < n implies #[trigger] all[i] == stats[i] by {}
    if t != dir_time(dir) {
        let i = choose|i: int| 0 <= i < stats.len() && counted(#[trigger] stats[i]) == Some(t);
        assert(counted(all[i]) == Some(t));
    }
    if is_markdown(s.name@) && (s.modified matches Some(m) && m > t) {
        assert(counted(all[n]) == Some(s.modified.unwrap()));
    }
    assert forall|i: int| 0 <= i < all.len() implies (counted(#[trigger] all[i]) matches Some(
        m,
    ) ==> m <= t || i == n) by {
        if i < n {
            assert(counted(stats[i]) matches Some(m) ==> m <= t);
        }
    }
}

} // verus!
