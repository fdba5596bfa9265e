//! Changes that wait until their file has been quiet for a while.
//!
//! A watcher reports every change of a file. A file that is saved several times
//! in a row should be compiled once, when the changes have stopped: each change
//! stamps the path with its time, and a path is due once its stamp is old
//! enough. Times are counted in milliseconds from any fixed moment.

use crate::ast::strings_view;
use crate::text::str_eq;
use vstd::prelude::*;

verus! {

/// The paths that wait, each with the time of its last change, in the order in
/// which they first changed.
pub type Stamps = Seq<(Seq<char>, u64)>;

/// The first index at or after `from` that holds `path`; the length where none does.
pub open spec fn stamp_from(m: Stamps, path: Seq<char>, from: int) -> int
    decreases m.len() - from,
{
    if from < 0 || from >= m.len() {
        m.len() as int
    } else if m[from].0 == path {
        from
    } else {
        stamp_from(m, path, from + 1)
    }
}

/// `m` after `path` changed at `now`: its stamp is set where it waits already, and
/// it waits last otherwise.
pub open spec fn stamped(m: Stamps, path: Seq<char>, now: u64) -> Stamps {
    let i = stamp_from(m, path, 0);
    if 0 <= i < m.len() {
        m.update(i, (path, now))
    } else {
        m.push((path, now))
    }
}

/// Whether a change at `at` is due at `now`: at least `quiet` milliseconds have
/// passed since. A change that is stamped later than `now` has waited no time.
pub open spec fn is_due(at: u64, now: u64, quiet: u64) -> bool {
    if now >= at {
        now - at >= quiet
    } else {
        quiet == 0
    }
}

/// The paths among the first `n` of `m` that are due, in order.
pub open spec fn due_paths(m: Stamps, now: u64, quiet: u64, n: int) -> Seq<Seq<char>>
    decreases n,
{
    if n <= 0 {
        Seq::empty()
    } else if is_due(m[n - 1].1, now, quiet) {
        due_paths(m, now, quiet, n - 1).push(m[n - 1].0)
    } else {
        due_paths(m, now, quiet, n - 1)
    }
}

/// Those among the first `n` of `m` that are not due, in order.
pub open spec fn still_waiting(m: Stamps, now: u64, quiet: u64, n: int) -> Stamps
    decreases n,
{
    if n <= 0 {
        Seq::empty()
    } else if is_due(m[n - 1].1, now, quiet) {
        still_waiting(m, now, quiet, n - 1)
    } else {
        still_waiting(m, now, quiet, n - 1).push(m[n - 1])
    }
}

/// The changes that wait.
#[derive(Debug, PartialEq, Eq)]
pub struct PendingChanges {
    entries: Vec<(String, u64)>,
}

/// The stamps that a vector of paths and times stands for.
pub open spec fn stamps_of(v: Seq<(String, u64)>) -> Stamps {
    Seq::new(v.len(), |i: int| (v[i].0@, v[i].1))
}

impl View for PendingChanges {
    type V = Stamps;

    closed spec fn view(&self) -> Stamps {
        stamps_of(self.entries@)
    }
}

impl PendingChanges {
    /// Nothing waits.
    pub fn new() -> (r: Self)
        ensures
            r@ == Seq::<(Seq<char>, u64)>::empty(),
    {
        let r = PendingChanges { entries: Vec::new() };
        assert(r@ =~= Seq::<(Seq<char>, u64)>::empty());
        r
    }

    /// The number of paths that wait.
    pub fn len(&self) -> (n: usize)
        ensures
            n == self@.len(),
    {
        self.entries.len()
    }

    /// Notes that `path` changed at `now`.
    pub fn touch(&mut self, path: String, now: u64)
        ensures
            final(self)@ == stamped(old(self)@, path@, now),
    {
        let mut i: usize = 0;
        while i < self.entries.len()
            invariant
                i <= self.entries.len(),
                self@ == old(self)@,
                stamp_from(self@, path@, 0) == stamp_from(self@, path@, i as int),
            decreases self.entries.len() - i,
        {
            if str_eq(self.entries[i].0.as_str(), path.as_str()) {
                let ghost before = self@;
                self.entries.set(i, (path, now));
                assert(self@ =~= stamped(before, path@, now));
                return ;
            }
            i += 1;
        }
        let ghost before = self@;
        self.entries.push((path, now));
        assert(self@ =~= stamped(before, path@, now));
    }

    /// Takes out the paths whose last change is at least `quiet` milliseconds older
    /// than `now`, in the order in which they first changed. The others go on waiting.
    pub fn take_due(&mut self, now: u64, quiet: u64) -> (due: Vec<String>)
        ensures
            strings_view(due@) == due_paths(old(self)@, now, quiet, old(self)@.len() as int),
            final(self)@ == still_waiting(old(self)@, now, quiet, old(self)@.len() as int),
    {
        let mut due: Vec<String> = Vec::new();
        let mut keep: Vec<(String, u64)> = Vec::new();
        let ghost all = self@;
        let mut i: usize = 0;
        assert(strings_view(due@) =~= due_paths(all, now, quiet, 0));
        assert(stamps_of(keep@) =~= still_waiting(all, now, quiet, 0));
        while i < self.entries.len()
            invariant
                i <= self.entries.len(),
                self@ == all,
                strings_view(due@) == due_paths(all, now, quiet, i as int),
                stamps_of(keep@) == still_waiting(all, now, quiet, i as int),
            decreases self.entries.len() - i,
        {
            let at = self.entries[i].1;
            let path = self.entries[i].0.clone();
            assert(all[i as int] == (self.entries[i as int].0@, at));
            let ripe = if now >= at {
                now - at >= quiet
            } else {
                quiet == 0
            };
            if ripe {
                assert(strings_view(due@.push(path)) =~= strings_view(due@).push(path@));
                due.push(path);
            } else {
                assert(stamps_of(keep@.push((path, at))) =~= stamps_of(keep@).push((path@, at)));
                keep.push((path, at));
            }
            i += 1;
        }
        self.entries = keep;
        due
    }
}

} // verus!
