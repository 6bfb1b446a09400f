//! Line counts of a change: additions, deletions and changes, added field by field.
use vstd::prelude::*;

verus! {

/// The mathematical value of a [`LanguageStats`]: additions, deletions, changes.
pub type StatsView = (int, int, int);

/// Field-wise sum of two statistics.
pub open spec fn add_stats(a: StatsView, b: StatsView) -> StatsView {
    (a.0 + b.0, a.1 + b.1, a.2 + b.2)
}

/// Each field fits in a `u64`.
pub open spec fn stats_fit(a: StatsView) -> bool {
    &&& 0 <= a.0 <= u64::MAX
    &&& 0 <= a.1 <= u64::MAX
    &&& 0 <= a.2 <= u64::MAX
}

/// Lines added, deleted and changed. `changes` is carried as reported and is
/// never derived from the other two.
#[derive(Clone, Copy, Debug, PartialEq, Eq, Structural)]
pub struct LanguageStats {
    pub additions: u64,
    pub deletions: u64,
    pub changes: u64,
}

impl View for LanguageStats {
    type V = StatsView;

    open spec fn view(&self) -> StatsView {
        (self.additions as int, self.deletions as int, self.changes as int)
    }
}

impl LanguageStats {
    /// The identity of field-wise addition.
    pub fn zero() -> (r: LanguageStats)
        ensures
            r@ == (0int, 0int, 0int),
    {
        LanguageStats { additions: 0, deletions: 0, changes: 0 }
    }

    /// Field-wise sum of `self` and `rhs`.
    pub fn add(&self, rhs: &LanguageStats) -> (r: LanguageStats)
        requires
            stats_fit(add_stats(self@, rhs@)),
        ensures
            r@ == add_stats(self@, rhs@),
    {
        LanguageStats {
            additions: self.additions + rhs.additions,
            deletions: self.deletions + rhs.deletions,
            changes: self.changes + rhs.changes,
        }
    }

    /// Adds `rhs` into `self`, field by field.
    pub fn add_assign(&mut self, rhs: LanguageStats)
        requires
            stats_fit(add_stats(old(self)@, rhs@)),
        ensures
            final(self)@ == add_stats(old(self)@, rhs@),
    {
        self.additions = self.additions + rhs.additions;
        self.deletions = self.deletions + rhs.deletions;
        self.changes = self.changes + rhs.changes;
    }
}

} // verus!
