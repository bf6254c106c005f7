//! The fold of file entries into per-directory totals.
//!
//! The aggregator is the single owner of the record. It takes entries one at
//! a time, in whatever order they arrive, and credits the size of each to
//! every path on the chain from the entry's own path up to the traversal root.

use crate::entry::{views, EntryView, FileEntry};
use crate::path::{lineage, normal_form, normalize, on_chain, within};
use crate::record::{capped, total_at, AggregateRecord};
use vstd::prelude::*;

verus! {

/// The sum of the sizes of those entries whose path is `d` or lies beneath `d`.
pub open spec fn size_beneath(d: Seq<char>, entries: Seq<EntryView>) -> nat
    decreases entries.len(),
{
    if entries.len() == 0 {
        0
    } else {
        let rest = size_beneath(d, entries.drop_last());
        if within(d, entries.last().path) {
            rest + entries.last().size as nat
        } else {
            rest
        }
    }
}

/// The sum of the sizes of all `entries`.
pub open spec fn total_size(entries: Seq<EntryView>) -> nat
    decreases entries.len(),
{
    if entries.len() == 0 {
        0
    } else {
        total_size(entries.drop_last()) + entries.last().size as nat
    }
}

/// Some entry credits `d`: `d` lies on the chain from that entry up to `root`.
pub open spec fn reached(root: Seq<char>, d: Seq<char>, entries: Seq<EntryView>) -> bool {
    exists|i: int| 0 <= i < entries.len() && on_chain(root, d, #[trigger] entries[i].path)
}

/// The record that aggregating `entries` below `root` ends with. It holds
/// the root, and every path on the chain from an entry inside the root up to
/// the root; each with the sum of the sizes of the entries at or beneath it,
/// capped at `u64::MAX`. Entries outside the root count nowhere, and a path
/// that is delivered twice counts twice.
pub open spec fn tally(root: Seq<char>, entries: Seq<EntryView>) -> Map<Seq<char>, u64> {
    Map::new(
        |d: Seq<char>| d == root || reached(root, d, entries),
        |d: Seq<char>| capped(size_beneath(d, entries) as int),
    )
}

/// `totals` after one more entry: each path on the chain from the entry up
/// to `root` gains the entry's size, starting from zero where it was not
/// held; every other path keeps what it had.
pub open spec fn absorbed(totals: Map<Seq<char>, u64>, root: Seq<char>, entry: EntryView) -> Map<
    Seq<char>,
    u64,
> {
    Map::new(
        |d: Seq<char>| totals.contains_key(d) || on_chain(root, d, entry.path),
        |d: Seq<char>|
            if on_chain(root, d, entry.path) {
                capped(total_at(totals, d) + entry.size)
            } else {
                totals[d]
            },
    )
}

/// Entries of which none lies at or beneath `d` add up to nothing there.
pub proof fn lemma_nothing_beneath(d: Seq<char>, entries: Seq<EntryView>)
    requires
        forall|i: int| 0 <= i < entries.len() ==> !within(d, #[trigger] entries[i].path),
    ensures
        size_beneath(d, entries) == 0,
    decreases entries.len(),
{
    if entries.len() > 0 {
        let rest = entries.drop_last();
        assert forall|i: int| 0 <= i < rest.len() implies !within(d, #[trigger] rest[i].path) by {
            assert(rest[i] == entries[i]);
        }
        lemma_nothing_beneath(d, rest);
        assert(entries.last() == entries[entries.len() - 1]);
    }
}

/// Where every entry lies within `d`, the sum at or beneath `d` is the sum of all.
pub proof fn lemma_all_beneath(d: Seq<char>, entries: Seq<EntryView>)
    requires
        forall|i: int| 0 <= i < entries.len() ==> within(d, #[trigger] entries[i].path),
    ensures
        size_beneath(d, entries) == total_size(entries),
    decreases entries.len(),
{
    if entries.len() > 0 {
        let rest = entries.drop_last();
        assert forall|i: int| 0 <= i < rest.len() implies within(d, #[trigger] rest[i].path) by {
            assert(rest[i] == entries[i]);
        }
        lemma_all_beneath(d, rest);
        assert(entries.last() == entries[entries.len() - 1]);
    }
}

/// The sum at or beneath `d` over two runs of entries, one after the other,
/// is the sum over the one and the sum over the other.
pub proof fn lemma_size_concat(d: Seq<char>, first: Seq<EntryView>, second: Seq<EntryView>)
    ensures
        size_beneath(d, first + second) == size_beneath(d, first) + size_beneath(d, second),
    decreases second.len(),
{
    if second.len() == 0 {
        assert(first + second =~= first);
    } else {
        assert((first + second).drop_last() =~= first + second.drop_last());
        assert((first + second).last() == second.last());
        lemma_size_concat(d, first, second.drop_last());
    }
}

/// The sum of all sizes over two runs of entries, one after the other, is
/// the sum over the one and the sum over the other.
pub proof fn lemma_total_concat(first: Seq<EntryView>, second: Seq<EntryView>)
    ensures
        total_size(first + second) == total_size(first) + total_size(second),
    decreases second.len(),
{
    if second.len() == 0 {
        assert(first + second =~= first);
    } else {
        assert((first + second).drop_last() =~= first + second.drop_last());
        assert((first + second).last() == second.last());
        lemma_total_concat(first, second.drop_last());
    }
}

/// Aggregating one entry more is aggregating the others and absorbing the
/// one: the closed form and the step agree.
pub proof fn lemma_tally_step(root: Seq<char>, entries: Seq<EntryView>, entry: EntryView)
    ensures
        tally(root, entries.push(entry)) == absorbed(tally(root, entries), root, entry),
{
    let more = entries.push(entry);
    let before = tally(root, entries);
    assert(more.drop_last() =~= entries);
    assert(more.last() == entry);
    assert forall|d: Seq<char>| reached(root, d, more) <==> reached(root, d, entries) || on_chain(
        root,
        d,
        entry.path,
    ) by {
        if reached(root, d, entries) {
            let i = choose|i: int|
                0 <= i < entries.len() && on_chain(root, d, #[trigger] entries[i].path);
            assert(more[i] == entries[i]);
            assert(on_chain(root, d, more[i].path));
        }
        if on_chain(root, d, entry.path) {
            assert(on_chain(root, d, more[more.len() - 1].path));
        }
        if reached(root, d, more) {
            let i = choose|i: int| 0 <= i < more.len() && on_chain(root, d, #[trigger] more[i].path);
            if i < entries.len() {
                assert(more[i] == entries[i]);
                assert(on_chain(root, d, entries[i].path));
            }
        }
    }
    assert forall|d: Seq<char>| #[trigger]
        tally(root, more).contains_key(d) implies tally(root, more)[d] == absorbed(
        before,
        root,
        entry,
    )[d] by {
        if on_chain(root, d, entry.path) {
            if !before.contains_key(d) {
                assert forall|i: int| 0 <= i < entries.len() implies !within(
                    d,
                    #[trigger] entries[i].path,
                ) by {
                    if within(d, entries[i].path) {
                        assert(on_chain(root, d, entries[i].path));
                    }
                }
                lemma_nothing_beneath(d, entries);
            }
        } else {
            if d != root {
                let i = choose|i: int|
                    0 <= i < entries.len() && on_chain(root, d, #[trigger] entries[i].path);
            }
            assert(within(root, d));
        }
    }
    assert(tally(root, more) =~= absorbed(before, root, entry));
}

/// One of the first `k` strings of `chain` reads `d`.
spec fn among(chain: Seq<String>, k: int, d: Seq<char>) -> bool {
    exists|i: int| 0 <= i < k && #[trigger] chain[i]@ == d
}

proof fn lemma_among_next(chain: Seq<String>, k: int, d: Seq<char>)
    requires
        0 <= k < chain.len(),
    ensures
        among(chain, k + 1, d) <==> among(chain, k, d) || chain[k]@ == d,
{
    if among(chain, k + 1, d) {
        let i = choose|i: int| 0 <= i < k + 1 && #[trigger] chain[i]@ == d;
        if i < k {
            assert(among(chain, k, d));
        }
    }
    if among(chain, k, d) {
        let i = choose|i: int| 0 <= i < k && #[trigger] chain[i]@ == d;
        assert(0 <= i < k + 1 && chain[i]@ == d);
    }
    if chain[k]@ == d {
        assert(among(chain, k + 1, d));
    }
}

/// `before` after `size` was credited to each of the first `k` paths of `chain`.
spec fn credited(before: Map<Seq<char>, u64>, chain: Seq<String>, k: int, size: u64) -> Map<
    Seq<char>,
    u64,
> {
    Map::new(
        |d: Seq<char>| before.contains_key(d) || among(chain, k, d),
        |d: Seq<char>|
            if among(chain, k, d) {
                capped(total_at(before, d) + size)
            } else {
                before[d]
            },
    )
}

/// The single owner of the record while a traversal runs.
pub struct Aggregator {
    root: String,
    record: AggregateRecord,
    seen: Ghost<Seq<EntryView>>,
}

/// An aggregator as contracts see it.
pub ghost struct AggregatorView {
    /// The traversal root, in normal form.
    pub root: Seq<char>,
    /// The entries absorbed so far, oldest first.
    pub seen: Seq<EntryView>,
    /// The record as it stands.
    pub totals: Map<Seq<char>, u64>,
}

impl View for Aggregator {
    type V = AggregatorView;

    closed spec fn view(&self) -> AggregatorView {
        AggregatorView { root: self.root@, seen: self.seen@, totals: self.record@ }
    }
}

impl Aggregator {
    /// The record is the tally of the entries absorbed so far. This holds of
    /// every aggregator from `new` on, whatever is done with it.
    pub closed spec fn wf(&self) -> bool {
        &&& self.record.wf()
        &&& self.record@ == tally(self.root@, self.seen@)
    }

    /// At every moment the record is the tally of the entries absorbed so far.
    pub proof fn lemma_record_is_tally(&self)
        requires
            self.wf(),
        ensures
            self@.totals == tally(self@.root, self@.seen),
            self@.totals.contains_key(self@.root),
            self@.totals.dom().finite(),
    {
        self.record.lemma_finite();
    }

    /// An aggregator for the traversal rooted at `root`. Its record holds
    /// the root alone, with a total of zero.
    pub fn new(root: &str) -> (agg: Aggregator)
        ensures
            agg.wf(),
            agg@.root == normal_form(root@),
            agg@.seen == Seq::<EntryView>::empty(),
            agg@.totals == tally(agg@.root, agg@.seen),
            agg@.totals == Map::<Seq<char>, u64>::empty().insert(agg@.root, 0),
    {
        let root = normalize(root);
        let mut record = AggregateRecord::new();
        record.set(root.as_str(), 0);
        proof {
            let none = Seq::<EntryView>::empty();
            assert(!reached(root@, root@, none));
            assert(record@ =~= tally(root@, none));
        }
        Aggregator { root, record, seen: Ghost(Seq::empty()) }
    }

    /// Takes one entry into the record: its size is added to the total of
    /// every path on the chain from the entry's path up to the root. Says
    /// whether the entry lies within the root; one that does not changes
    /// nothing.
    pub fn absorb(&mut self, entry: &FileEntry) -> (counted: bool)
        requires
            old(self).wf(),
        ensures
            final(self).wf(),
            final(self)@.root == old(self)@.root,
            final(self)@.seen == old(self)@.seen.push(entry@),
            final(self)@.totals == absorbed(old(self)@.totals, old(self)@.root, entry@),
            final(self)@.totals == tally(final(self)@.root, final(self)@.seen),
            counted == within(old(self)@.root, entry@.path),
            !counted ==> final(self)@.totals == old(self)@.totals,
    {
        let chain = lineage(self.root.as_str(), entry.path());
        let size = entry.size();
        let ghost before = self.record@;
        let ghost root = self.root@;
        let ghost path = entry@.path;
        let mut k: usize = 0;
        assert(self.record@ =~= credited(before, chain@, 0, size));
        while k < chain.len()
            invariant
                k <= chain.len(),
                self.record.wf(),
                self.root@ == root,
                self.seen@ == old(self).seen@,
                forall|i: int, j: int|
                    0 <= i < j < chain.len() ==> chain[j]@.len() < chain[i]@.len(),
                self.record@ == credited(before, chain@, k as int, size),
            decreases chain.len() - k,
        {
            let ghost step = chain[k as int]@;
            proof {
                if among(chain@, k as int, step) {
                    let i = choose|i: int| 0 <= i < k && #[trigger] chain@[i]@ == step;
                    assert(chain[k as int]@.len() < chain[i]@.len());
                }
                assert forall|d: Seq<char>|
                    among(chain@, k + 1, d) <==> among(chain@, k as int, d) || d == step by {
                    lemma_among_next(chain@, k as int, d);
                }
            }
            self.record.credit(chain[k].as_str(), size);
            k += 1;
            assert(self.record@ =~= credited(before, chain@, k as int, size));
        }
        proof {
            assert forall|d: Seq<char>| on_chain(root, d, path) <==> among(
                chain@,
                chain.len() as int,
                d,
            ) by {
                if among(chain@, chain.len() as int, d) {
                    let i = choose|i: int| 0 <= i < chain.len() && #[trigger] chain@[i]@ == d;
                    assert(chain[i]@ == d);
                }
                if on_chain(root, d, path) {
                    let i = choose|i: int| 0 <= i < chain.len() && #[trigger] chain[i]@ == d;
                    assert(chain@[i]@ == d);
                }
            }
            assert(self.record@ =~= absorbed(before, root, entry@));
            lemma_tally_step(root, self.seen@, entry@);
            self.seen@ = self.seen@.push(entry@);
            if chain.len() == 0 {
                assert(self.record@ =~= before);
            }
        }
        chain.len() > 0
    }

    /// The total recorded for `path` so far, if the record holds the path.
    pub fn get(&self, path: &str) -> (total: Option<u64>)
        ensures
            total == if self@.totals.contains_key(path@) {
                Some(self@.totals[path@])
            } else {
                None
            },
    {
        self.record.get(path)
    }

    /// The total recorded for the root so far: the bytes of every entry
    /// within the root.
    pub fn total(&self) -> (bytes: u64)
        requires
            self.wf(),
        ensures
            bytes == self@.totals[self@.root],
            bytes == capped(size_beneath(self@.root, self@.seen) as int),
    {
        match self.record.get(self.root.as_str()) {
            Some(v) => v,
            None => 0,
        }
    }

    /// Ends the aggregation and hands the record over.
    pub fn finish(self) -> (record: AggregateRecord)
        requires
            self.wf(),
        ensures
            record.wf(),
            record@ == self@.totals,
            record@ == tally(self@.root, self@.seen),
    {
        self.record
    }
}

/// Aggregates `entries` below `root` in one go: the record holds, for the
/// root and for every path from an entry inside the root up to the root, the
/// sum of the sizes of the entries at or beneath that path.
pub fn aggregate(root: &str, entries: &Vec<FileEntry>) -> (record: AggregateRecord)
    ensures
        record.wf(),
        record@ == tally(normal_form(root@), views(entries@)),
{
    let mut agg = Aggregator::new(root);
    let mut k: usize = 0;
    while k < entries.len()
        invariant
            k <= entries.len(),
            agg.wf(),
            agg@.root == normal_form(root@),
            agg@.seen == views(entries@).take(k as int),
        decreases entries.len() - k,
    {
        agg.absorb(&entries[k]);
        k += 1;
        proof {
            assert(views(entries@).take(k as int) =~= views(entries@).take(k - 1).push(
                entries[k - 1]@,
            ));
        }
    }
    proof {
        assert(views(entries@).take(k as int) =~= views(entries@));
    }
    agg.finish()
}

} // verus!
