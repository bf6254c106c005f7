//! The result of an aggregation: a cumulative byte count for each path.

use vstd::hash_map::StringHashMap;
use vstd::prelude::*;
use vstd::string::*;

verus! {

/// `n`, or `u64::MAX` where `n` is larger: totals do not wrap around.
pub open spec fn capped(n: int) -> u64 {
    if n > u64::MAX {
        u64::MAX
    } else if n < 0 {
        0
    } else {
        n as u64
    }
}

/// What `totals` holds for `path`: nothing counts as zero.
pub open spec fn total_at(totals: Map<Seq<char>, u64>, path: Seq<char>) -> u64 {
    if totals.contains_key(path) {
        totals[path]
    } else {
        0
    }
}

/// A mapping from path to cumulative byte count, each path at most once.
pub struct AggregateRecord {
    totals: StringHashMap<u64>,
}

impl View for AggregateRecord {
    type V = Map<Seq<char>, u64>;

    closed spec fn view(&self) -> Map<Seq<char>, u64> {
        self.totals@
    }
}

impl AggregateRecord {
    /// The record holds finitely many paths. Every record that this
    /// module hands out does.
    pub closed spec fn wf(&self) -> bool {
        self.totals@.dom().finite()
    }

    /// A well-formed record holds finitely many paths.
    pub proof fn lemma_finite(&self)
        requires
            self.wf(),
        ensures
            self@.dom().finite(),
    {
    }

    /// A record that holds no path.
    pub fn new() -> (record: AggregateRecord)
        ensures
            record.wf(),
            record@ == Map::<Seq<char>, u64>::empty(),
    {
        AggregateRecord { totals: StringHashMap::new() }
    }

    /// The total recorded for `path`, if the record holds the path.
    pub fn get(&self, path: &str) -> (total: Option<u64>)
        ensures
            total == if self@.contains_key(path@) {
                Some(self@[path@])
            } else {
                None
            },
    {
        match self.totals.get(path) {
            Some(v) => Some(*v),
            None => None,
        }
    }

    /// Whether the record holds `path`.
    pub fn contains(&self, path: &str) -> (held: bool)
        ensures
            held == self@.contains_key(path@),
    {
        self.totals.contains_key(path)
    }

    /// The number of distinct paths in the record.
    pub fn len(&self) -> (n: usize)
        requires
            self.wf(),
        ensures
            self@.dom().finite(),
            n == self@.dom().len(),
    {
        self.totals.len()
    }

    /// Whether the record holds no path at all.
    pub fn is_empty(&self) -> (empty: bool)
        ensures
            empty == (self@ == Map::<Seq<char>, u64>::empty()),
    {
        let empty = self.totals.is_empty();
        proof {
            if empty {
                assert(self@ =~= Map::<Seq<char>, u64>::empty());
            }
        }
        empty
    }

    /// Records `value` for `path`, in place of what was recorded for it before.
    pub fn set(&mut self, path: &str, value: u64)
        requires
            old(self).wf(),
        ensures
            final(self).wf(),
            final(self)@ == old(self)@.insert(path@, value),
    {
        self.totals.insert(path.to_owned(), value);
    }

    /// Adds `size` to the total of `path`, which starts from zero where the
    /// record does not hold the path yet. The total stops at `u64::MAX`.
    pub fn credit(&mut self, path: &str, size: u64)
        requires
            old(self).wf(),
        ensures
            final(self).wf(),
            final(self)@ == old(self)@.insert(
                path@,
                capped(total_at(old(self)@, path@) + size),
            ),
    {
        let before = match self.get(path) {
            Some(v) => v,
            None => 0,
        };
        self.set(path, before.saturating_add(size));
    }
}

} // verus!
