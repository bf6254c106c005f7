//! Fan-out on the sending side.
//!
//! Instead of one entry for the aggregator to fan out, a worker can send
//! one credit for each path on the chain itself, and leave the receiver to
//! add up what arrives for each path. Both ways end in the same record.

use crate::aggregator::{absorbed, lemma_tally_step, tally};
use crate::entry::{EntryView, FileEntry};
use crate::path::{
    is_ancestor, is_normal, lemma_normal_is_fixed, lineage, normal_form, normalize, on_chain,
    within, SEPARATOR,
};
use crate::record::{capped, total_at};
use vstd::prelude::*;

verus! {

/// `totals` after each of `credits` was added to the total of its own path,
/// and of no other.
pub open spec fn credited_each(totals: Map<Seq<char>, u64>, credits: Seq<EntryView>) -> Map<
    Seq<char>,
    u64,
>
    decreases credits.len(),
{
    if credits.len() == 0 {
        totals
    } else {
        let before = credited_each(totals, credits.drop_last());
        let last = credits.last();
        before.insert(last.path, capped(total_at(before, last.path) + last.size))
    }
}

/// `credits` are what `entry` fans out to below `root`: one credit of the
/// entry's size for each path on the chain from the entry up to the root,
/// and no path twice.
pub open spec fn fans_out(root: Seq<char>, entry: EntryView, credits: Seq<EntryView>) -> bool {
    &&& forall|d: Seq<char>|
        on_chain(root, d, entry.path) <==> exists|i: int|
            0 <= i < credits.len() && #[trigger] credits[i].path == d
    &&& forall|i: int| 0 <= i < credits.len() ==> (#[trigger] credits[i]).size == entry.size
    &&& forall|i: int, j: int|
        0 <= i < j < credits.len() ==> credits[i].path != credits[j].path
}

/// What lies above a path in normal form is in normal form.
pub proof fn lemma_ancestor_normal(d: Seq<char>, p: Seq<char>)
    requires
        is_normal(p),
        within(d, p),
    ensures
        is_normal(d),
{
    if is_ancestor(d, p) {
        assert forall|i: int| 0 < i < d.len() implies !(#[trigger] d[i] == SEPARATOR && d[i - 1]
            == SEPARATOR) by {
            assert(d[i] == p.subrange(0, d.len() as int)[i]);
            assert(d[i - 1] == p.subrange(0, d.len() as int)[i - 1]);
            assert(!(p[i] == SEPARATOR && p[i - 1] == SEPARATOR));
        }
        if d.len() > 1 {
            assert(d != seq![SEPARATOR]);
            assert(d.last() == p.subrange(0, d.len() as int)[d.len() - 1]);
            assert(!(p[d.len() as int] == SEPARATOR && p[d.len() - 1] == SEPARATOR));
        }
    }
}

/// The credits that `entry` fans out to below `root`, nearest first: the
/// entry's own path, then each directory above it, ending with the root.
/// None where the entry does not lie within the root. The root is brought
/// to normal form first, as the paths of entries are.
pub fn credits_of(root: &str, entry: &FileEntry) -> (credits: Vec<FileEntry>)
    ensures
        fans_out(normal_form(root@), entry@, credits@.map_values(|c: FileEntry| c@)),
        forall|i: int, j: int|
            0 <= i < j < credits.len() ==> credits[j]@.path.len() < credits[i]@.path.len(),
        credits.len() > 0 <==> within(normal_form(root@), entry@.path),
{
    let top = normalize(root);
    let chain = lineage(top.as_str(), entry.path());
    let size = entry.size();
    let ghost base = top@;
    let mut credits: Vec<FileEntry> = Vec::new();
    let mut k: usize = 0;
    while k < chain.len()
        invariant
            k <= chain.len(),
            credits.len() == k,
            is_normal(entry@.path),
            forall|d: Seq<char>|
                on_chain(base, d, entry@.path) <==> exists|i: int|
                    0 <= i < chain.len() && #[trigger] chain[i]@ == d,
            forall|i: int|
                0 <= i < k ==> (#[trigger] credits[i])@ == (EntryView { path: chain[i]@, size }),
        decreases chain.len() - k,
    {
        proof {
            let d = chain[k as int]@;
            assert(on_chain(base, d, entry@.path));
            lemma_ancestor_normal(d, entry@.path);
            lemma_normal_is_fixed(d);
        }
        credits.push(FileEntry::new(chain[k].as_str(), size));
        k += 1;
    }
    proof {
        let seen = credits@.map_values(|c: FileEntry| c@);
        assert forall|i: int| 0 <= i < seen.len() implies (#[trigger] seen[i]).path == chain[i]@
            && seen[i].size == entry@.size by {
            assert(seen[i] == credits[i]@);
        }
        assert forall|d: Seq<char>| on_chain(base, d, entry@.path) <==> exists|i: int|
            0 <= i < seen.len() && #[trigger] seen[i].path == d by {
            if on_chain(base, d, entry@.path) {
                let i = choose|i: int| 0 <= i < chain.len() && #[trigger] chain[i]@ == d;
                assert(seen[i].path == d);
            }
            if exists|i: int| 0 <= i < seen.len() && #[trigger] seen[i].path == d {
                let i = choose|i: int| 0 <= i < seen.len() && #[trigger] seen[i].path == d;
                assert(chain[i]@ == d);
            }
        }
        assert forall|i: int, j: int| 0 <= i < j < seen.len() implies seen[i].path != seen[j].path by {
            assert(chain[j]@.len() < chain[i]@.len());
        }
    }
    credits
}

/// One of the first `k` of `credits` is for `d`.
spec fn credits_path(credits: Seq<EntryView>, k: int, d: Seq<char>) -> bool {
    exists|i: int| 0 <= i < k && #[trigger] credits[i].path == d
}

/// What the first `k` credits of one size, no two for the same path, leave
/// of `totals`.
proof fn lemma_credited_prefix(
    totals: Map<Seq<char>, u64>,
    credits: Seq<EntryView>,
    size: u64,
    k: int,
)
    requires
        0 <= k <= credits.len(),
        forall|i: int| 0 <= i < credits.len() ==> (#[trigger] credits[i]).size == size,
        forall|i: int, j: int| 0 <= i < j < credits.len() ==> credits[i].path != credits[j].path,
    ensures
        credited_each(totals, credits.take(k)) == Map::new(
            |d: Seq<char>| totals.contains_key(d) || credits_path(credits, k, d),
            |d: Seq<char>|
                if credits_path(credits, k, d) {
                    capped(total_at(totals, d) + size)
                } else {
                    totals[d]
                },
        ),
    decreases k,
{
    let closed = |n: int|
        Map::new(
            |d: Seq<char>| totals.contains_key(d) || credits_path(credits, n, d),
            |d: Seq<char>|
                if credits_path(credits, n, d) {
                    capped(total_at(totals, d) + size)
                } else {
                    totals[d]
                },
        );
    if k == 0 {
        assert(credited_each(totals, credits.take(0)) =~= closed(0));
    } else {
        lemma_credited_prefix(totals, credits, size, k - 1);
        let step = credits[k - 1];
        assert(credits.take(k).drop_last() =~= credits.take(k - 1));
        assert(credits.take(k).last() == step);
        assert(!credits_path(credits, k - 1, step.path)) by {
            if credits_path(credits, k - 1, step.path) {
                let i = choose|i: int| 0 <= i < k - 1 && #[trigger] credits[i].path == step.path;
                assert(credits[i].path != credits[k - 1].path);
            }
        }
        assert forall|d: Seq<char>|
            credits_path(credits, k, d) <==> credits_path(credits, k - 1, d) || d
                == step.path by {
            if credits_path(credits, k, d) {
                let i = choose|i: int| 0 <= i < k && #[trigger] credits[i].path == d;
                if i < k - 1 {
                    assert(credits_path(credits, k - 1, d));
                }
            }
            if credits_path(credits, k - 1, d) {
                let i = choose|i: int| 0 <= i < k - 1 && #[trigger] credits[i].path == d;
                assert(0 <= i < k && credits[i].path == d);
            }
            if d == step.path {
                assert(credits[k - 1].path == d);
            }
        }
        assert(credited_each(totals, credits.take(k)) =~= closed(k));
    }
}

/// Fan-out on either side of the channel comes to the same: adding each of
/// the credits that an entry fans out to, in the order given, leaves the
/// record as absorbing the entry itself does.
pub proof fn lemma_fan_out_either_side(
    totals: Map<Seq<char>, u64>,
    root: Seq<char>,
    entry: EntryView,
    credits: Seq<EntryView>,
)
    requires
        fans_out(root, entry, credits),
    ensures
        credited_each(totals, credits) == absorbed(totals, root, entry),
{
    lemma_credited_prefix(totals, credits, entry.size, credits.len() as int);
    assert(credits.take(credits.len() as int) =~= credits);
    assert forall|d: Seq<char>|
        on_chain(root, d, entry.path) <==> credits_path(credits, credits.len() as int, d) by {}
    assert(credited_each(totals, credits) =~= absorbed(totals, root, entry));
}

/// The sum of the sizes of those of `credits` that are for `d`.
pub open spec fn credited_to(d: Seq<char>, credits: Seq<EntryView>) -> nat
    decreases credits.len(),
{
    if credits.len() == 0 {
        0
    } else {
        let rest = credited_to(d, credits.drop_last());
        if credits.last().path == d {
            rest + credits.last().size as nat
        } else {
            rest
        }
    }
}

/// One of `credits` is for `d`.
pub open spec fn credits_name(credits: Seq<EntryView>, d: Seq<char>) -> bool {
    exists|i: int| 0 <= i < credits.len() && #[trigger] credits[i].path == d
}

/// What a receiver of credits ends with, in closed form: each path that a
/// credit names holds what it held before, or zero, and the sum of the
/// credits for it on top, capped at `u64::MAX`; every other path keeps what
/// it had.
pub open spec fn credited_sum(totals: Map<Seq<char>, u64>, credits: Seq<EntryView>) -> Map<
    Seq<char>,
    u64,
> {
    Map::new(
        |d: Seq<char>| totals.contains_key(d) || credits_name(credits, d),
        |d: Seq<char>|
            if credits_name(credits, d) {
                capped(total_at(totals, d) + credited_to(d, credits))
            } else {
                totals[d]
            },
    )
}

/// Credits of which none is for `d` add up to nothing there.
proof fn lemma_nothing_credited(d: Seq<char>, credits: Seq<EntryView>)
    requires
        !credits_name(credits, d),
    ensures
        credited_to(d, credits) == 0,
    decreases credits.len(),
{
    if credits.len() > 0 {
        let rest = credits.drop_last();
        assert(credits[credits.len() - 1].path != d);
        if credits_name(rest, d) {
            let i = choose|i: int| 0 <= i < rest.len() && #[trigger] rest[i].path == d;
            assert(credits[i].path == d);
        }
        lemma_nothing_credited(d, rest);
    }
}

/// One credit more names one path more.
proof fn lemma_names_push(rest: Seq<EntryView>, last: EntryView, d: Seq<char>)
    ensures
        credits_name(rest.push(last), d) <==> credits_name(rest, d) || d == last.path,
{
    let all = rest.push(last);
    if credits_name(all, d) {
        let i = choose|i: int| 0 <= i < all.len() && #[trigger] all[i].path == d;
        if i < rest.len() {
            assert(rest[i].path == d);
        }
    }
    if credits_name(rest, d) {
        let i = choose|i: int| 0 <= i < rest.len() && #[trigger] rest[i].path == d;
        assert(all[i].path == d);
    }
    if d == last.path {
        assert(all[all.len() - 1].path == d);
    }
}

/// Adding credits one by one comes to the closed form: only the sum of the
/// credits for each path counts.
pub proof fn lemma_credited_each_is_sum(totals: Map<Seq<char>, u64>, credits: Seq<EntryView>)
    ensures
        credited_each(totals, credits) == credited_sum(totals, credits),
    decreases credits.len(),
{
    if credits.len() == 0 {
        assert(credited_each(totals, credits) =~= credited_sum(totals, credits));
    } else {
        let rest = credits.drop_last();
        let last = credits.last();
        let before = credited_each(totals, rest);
        lemma_credited_each_is_sum(totals, rest);
        assert(rest.push(last) =~= credits);
        assert forall|d: Seq<char>|
            credits_name(credits, d) <==> credits_name(rest, d) || d == last.path by {
            lemma_names_push(rest, last, d);
        }
        if !credits_name(rest, last.path) {
            lemma_nothing_credited(last.path, rest);
        }
        assert(total_at(before, last.path) == capped(
            total_at(totals, last.path) + credited_to(last.path, rest),
        ));
        assert(credited_each(totals, credits) =~= credited_sum(totals, credits));
    }
}

/// Taking one credit out takes its size out of the sum for its path.
proof fn lemma_credited_without(d: Seq<char>, credits: Seq<EntryView>, j: int)
    requires
        0 <= j < credits.len(),
    ensures
        credited_to(d, credits) == credited_to(d, credits.remove(j)) + if credits[j].path == d {
            credits[j].size as nat
        } else {
            0
        },
    decreases credits.len(),
{
    if j == credits.len() - 1 {
        assert(credits.remove(j) =~= credits.drop_last());
    } else {
        let shorter = credits.remove(j);
        assert(shorter.drop_last() =~= credits.drop_last().remove(j));
        assert(shorter.last() == credits.last());
        lemma_credited_without(d, credits.drop_last(), j);
    }
}

/// The sum of the credits for a path does not depend on their order.
proof fn lemma_credited_to_any_order(d: Seq<char>, first: Seq<EntryView>, second: Seq<EntryView>)
    requires
        first.to_multiset() == second.to_multiset(),
    ensures
        credited_to(d, first) == credited_to(d, second),
    decreases first.len(),
{
    broadcast use vstd::seq_lib::group_to_multiset_ensures;

    if first.len() > 0 {
        let last = first.last();
        assert(first.to_multiset().count(last) > 0);
        let j = second.index_of(last);
        assert(first.drop_last() =~= first.remove(first.len() - 1));
        lemma_credited_without(d, second, j);
        lemma_credited_to_any_order(d, first.drop_last(), second.remove(j));
    } else {
        assert(second.to_multiset().len() == 0);
    }
}

/// Which paths the credits name does not depend on their order.
proof fn lemma_names_any_order(d: Seq<char>, first: Seq<EntryView>, second: Seq<EntryView>)
    requires
        first.to_multiset() == second.to_multiset(),
        credits_name(first, d),
    ensures
        credits_name(second, d),
{
    broadcast use vstd::seq_lib::group_to_multiset_ensures;

    let i = choose|i: int| 0 <= i < first.len() && #[trigger] first[i].path == d;
    assert(first.contains(first[i]));
    assert(second.to_multiset().count(first[i]) > 0);
    let j = second.index_of(first[i]);
    assert(second[j].path == d);
}

/// A receiver of credits ends with the same record in whatever order the
/// credits arrive, those of one entry together or mixed with those of
/// others.
pub proof fn lemma_credits_any_order(
    totals: Map<Seq<char>, u64>,
    first: Seq<EntryView>,
    second: Seq<EntryView>,
)
    requires
        first.to_multiset() == second.to_multiset(),
    ensures
        credited_each(totals, first) == credited_each(totals, second),
{
    lemma_credited_each_is_sum(totals, first);
    lemma_credited_each_is_sum(totals, second);
    assert forall|d: Seq<char>| credits_name(first, d) <==> credits_name(second, d) by {
        if credits_name(first, d) {
            lemma_names_any_order(d, first, second);
        }
        if credits_name(second, d) {
            lemma_names_any_order(d, second, first);
        }
    }
    assert forall|d: Seq<char>| credited_to(d, first) == credited_to(d, second) by {
        lemma_credited_to_any_order(d, first, second);
    }
    assert(credited_sum(totals, first) =~= credited_sum(totals, second));
}

/// The credits of `fans`, one run after the other.
pub open spec fn fanned(fans: Seq<Seq<EntryView>>) -> Seq<EntryView>
    decreases fans.len(),
{
    if fans.len() == 0 {
        Seq::empty()
    } else {
        fanned(fans.drop_last()) + fans.last()
    }
}

/// Adding two runs of credits, one after the other, is adding the second
/// run to what the first run left.
proof fn lemma_credited_concat(
    totals: Map<Seq<char>, u64>,
    first: Seq<EntryView>,
    second: Seq<EntryView>,
)
    ensures
        credited_each(totals, first + second) == credited_each(
            credited_each(totals, first),
            second,
        ),
    decreases second.len(),
{
    if second.len() == 0 {
        assert(first + second =~= first);
    } else {
        assert((first + second).drop_last() =~= first + second.drop_last());
        assert((first + second).last() == second.last());
        lemma_credited_concat(totals, first, second.drop_last());
    }
}

/// The credits of a whole run, entry after entry, leave the record that
/// aggregating the entries leaves.
proof fn lemma_fanned_tally(root: Seq<char>, entries: Seq<EntryView>, fans: Seq<Seq<EntryView>>)
    requires
        fans.len() == entries.len(),
        forall|i: int| 0 <= i < entries.len() ==> fans_out(root, entries[i], #[trigger] fans[i]),
    ensures
        credited_each(tally(root, Seq::empty()), fanned(fans)) == tally(root, entries),
    decreases entries.len(),
{
    let start = tally(root, Seq::<EntryView>::empty());
    if entries.len() == 0 {
        assert(entries =~= Seq::<EntryView>::empty());
    } else {
        let earlier = entries.drop_last();
        let earlier_fans = fans.drop_last();
        assert forall|i: int| 0 <= i < earlier.len() implies fans_out(
            root,
            earlier[i],
            #[trigger] earlier_fans[i],
        ) by {
            assert(earlier_fans[i] == fans[i]);
        }
        lemma_fanned_tally(root, earlier, earlier_fans);
        lemma_credited_concat(start, fanned(earlier_fans), fans.last());
        assert(fans.last() == fans[entries.len() - 1]);
        lemma_fan_out_either_side(tally(root, earlier), root, entries.last(), fans.last());
        lemma_tally_step(root, earlier, entries.last());
        assert(earlier.push(entries.last()) =~= entries);
    }
}

/// Fan-out on the sending side, for a whole run: let every entry be fanned
/// out by its worker, and let the credits of all workers arrive in whatever
/// order. A receiver that starts from the root at zero and adds each credit
/// to its own path ends with the record that the aggregator ends with.
pub proof fn lemma_credits_tally(
    root: Seq<char>,
    entries: Seq<EntryView>,
    fans: Seq<Seq<EntryView>>,
    arrival: Seq<EntryView>,
)
    requires
        fans.len() == entries.len(),
        forall|i: int| 0 <= i < entries.len() ==> fans_out(root, entries[i], #[trigger] fans[i]),
        arrival.to_multiset() == fanned(fans).to_multiset(),
    ensures
        credited_each(tally(root, Seq::empty()), arrival) == tally(root, entries),
{
    lemma_fanned_tally(root, entries, fans);
    lemma_credits_any_order(tally(root, Seq::empty()), arrival, fanned(fans));
}

} // verus!
