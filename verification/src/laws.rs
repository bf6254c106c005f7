//! What holds of every aggregation, whatever the entries and their order.

use crate::aggregator::{
    lemma_all_beneath, reached, size_beneath, tally, total_size, Aggregator,
};
use crate::entry::EntryView;
use crate::path::{is_normal, lemma_within_transitive, on_chain, within};
use crate::record::capped;
use crate::tree::{
    content_size, lemma_listed_node, lemma_listing_normal, lemma_located, lemma_node_between,
    lemma_subtree_size, listing, located, well_named, Tree,
};
use vstd::prelude::*;

verus! {

/// What one entry adds to the sum at or beneath `d`.
spec fn share(d: Seq<char>, entry: EntryView) -> nat {
    if within(d, entry.path) {
        entry.size as nat
    } else {
        0
    }
}

/// Fan-out: every path that the record holds lies within the root, and its
/// total is the sum of the sizes of all entries at or beneath it. The sum
/// itself is recorded wherever it fits in 64 bits; a larger one is recorded
/// as `u64::MAX`.
pub proof fn lemma_fan_out(root: Seq<char>, entries: Seq<EntryView>, d: Seq<char>)
    requires
        tally(root, entries).contains_key(d),
    ensures
        within(root, d),
        tally(root, entries)[d] == capped(size_beneath(d, entries) as int),
        size_beneath(d, entries) <= u64::MAX ==> tally(root, entries)[d] == size_beneath(
            d,
            entries,
        ),
{
    if d != root {
        let i = choose|i: int|
            0 <= i < entries.len() && on_chain(root, d, #[trigger] entries[i].path);
    }
}

/// Fan-out reaches every level: the record holds the root, and for each
/// entry within the root the entry's own path and every directory between
/// it and the root.
pub proof fn lemma_every_level_recorded(
    root: Seq<char>,
    entries: Seq<EntryView>,
    i: int,
    d: Seq<char>,
)
    requires
        0 <= i < entries.len(),
        within(root, d),
        within(d, entries[i].path),
    ensures
        tally(root, entries).contains_key(root),
        tally(root, entries).contains_key(d),
        tally(root, entries).contains_key(entries[i].path),
{
    lemma_within_transitive(root, d, entries[i].path);
    assert(on_chain(root, d, entries[i].path));
    assert(on_chain(root, entries[i].path, entries[i].path));
}

/// The record holds nothing else: a path other than the root is held only
/// if some entry lies at or beneath it.
pub proof fn lemma_nothing_else_recorded(root: Seq<char>, entries: Seq<EntryView>, d: Seq<char>)
    requires
        tally(root, entries).contains_key(d),
        d != root,
    ensures
        exists|i: int|
            0 <= i < entries.len() && within(root, d) && within(d, #[trigger] entries[i].path),
{
    let i = choose|i: int| 0 <= i < entries.len() && on_chain(root, d, #[trigger] entries[i].path);
    assert(within(root, d) && within(d, entries[i].path));
}

/// Root totality: the root is always recorded, and its total is the sum of
/// the sizes of the entries within the root; where the traversal delivered
/// nothing from outside its root, that is the sum of all sizes.
pub proof fn lemma_root_total(root: Seq<char>, entries: Seq<EntryView>)
    ensures
        tally(root, entries).contains_key(root),
        tally(root, entries)[root] == capped(size_beneath(root, entries) as int),
        (forall|i: int| 0 <= i < entries.len() ==> within(root, #[trigger] entries[i].path))
            ==> tally(root, entries)[root] == capped(total_size(entries) as int),
{
    if forall|i: int| 0 <= i < entries.len() ==> within(root, #[trigger] entries[i].path) {
        lemma_all_beneath(root, entries);
    }
}

/// What lies beneath a path lies beneath everything above it, so the sum
/// does not shrink on the way up.
proof fn lemma_size_grows_upwards(upper: Seq<char>, lower: Seq<char>, entries: Seq<EntryView>)
    requires
        within(upper, lower),
    ensures
        size_beneath(lower, entries) <= size_beneath(upper, entries),
    decreases entries.len(),
{
    if entries.len() > 0 {
        lemma_size_grows_upwards(upper, lower, entries.drop_last());
        if within(lower, entries.last().path) {
            lemma_within_transitive(upper, lower, entries.last().path);
        }
    }
}

/// Monotonicity: of two recorded paths, the one above the other has at
/// least the other's total. So along the way from any entry to the root the
/// totals never decrease.
pub proof fn lemma_monotone(
    root: Seq<char>,
    entries: Seq<EntryView>,
    upper: Seq<char>,
    lower: Seq<char>,
)
    requires
        within(upper, lower),
        tally(root, entries).contains_key(upper),
        tally(root, entries).contains_key(lower),
    ensures
        tally(root, entries)[lower] <= tally(root, entries)[upper],
{
    lemma_size_grows_upwards(upper, lower, entries);
}

/// Taking one entry out takes its share out of the sum.
proof fn lemma_size_without(d: Seq<char>, entries: Seq<EntryView>, j: int)
    requires
        0 <= j < entries.len(),
    ensures
        size_beneath(d, entries) == size_beneath(d, entries.remove(j)) + share(d, entries[j]),
    decreases entries.len(),
{
    if j == entries.len() - 1 {
        assert(entries.remove(j) =~= entries.drop_last());
    } else {
        let shorter = entries.remove(j);
        assert(shorter.drop_last() =~= entries.drop_last().remove(j));
        assert(shorter.last() == entries.last());
        lemma_size_without(d, entries.drop_last(), j);
    }
}

/// The sum at or beneath a path does not depend on the order of the entries.
proof fn lemma_size_any_order(d: Seq<char>, first: Seq<EntryView>, second: Seq<EntryView>)
    requires
        first.to_multiset() == second.to_multiset(),
    ensures
        size_beneath(d, first) == size_beneath(d, second),
    decreases first.len(),
{
    broadcast use vstd::seq_lib::group_to_multiset_ensures;

    if first.len() > 0 {
        let last = first.last();
        assert(first.to_multiset().count(last) > 0);
        let j = second.index_of(last);
        assert(first.drop_last() =~= first.remove(first.len() - 1));
        lemma_size_without(d, second, j);
        lemma_size_any_order(d, first.drop_last(), second.remove(j));
    } else {
        assert(second.to_multiset().len() == 0);
    }
}

/// Which paths are credited does not depend on the order of the entries.
proof fn lemma_reached_any_order(
    root: Seq<char>,
    d: Seq<char>,
    first: Seq<EntryView>,
    second: Seq<EntryView>,
)
    requires
        first.to_multiset() == second.to_multiset(),
        reached(root, d, first),
    ensures
        reached(root, d, second),
{
    broadcast use vstd::seq_lib::group_to_multiset_ensures;

    let i = choose|i: int| 0 <= i < first.len() && on_chain(root, d, #[trigger] first[i].path);
    assert(first.contains(first[i]));
    assert(second.to_multiset().count(first[i]) > 0);
    let j = second.index_of(first[i]);
    assert(on_chain(root, d, second[j].path));
}

/// Order independence: the same entries, delivered in any other order, end
/// in the same record.
pub proof fn lemma_order_independent(
    root: Seq<char>,
    first: Seq<EntryView>,
    second: Seq<EntryView>,
)
    requires
        first.to_multiset() == second.to_multiset(),
    ensures
        tally(root, first) == tally(root, second),
{
    assert forall|d: Seq<char>| reached(root, d, first) <==> reached(root, d, second) by {
        if reached(root, d, first) {
            lemma_reached_any_order(root, d, first, second);
        }
        if reached(root, d, second) {
            lemma_reached_any_order(root, d, second, first);
        }
    }
    assert forall|d: Seq<char>| size_beneath(d, first) == size_beneath(d, second) by {
        lemma_size_any_order(d, first, second);
    }
    assert(tally(root, first) =~= tally(root, second));
}

/// Idempotence: two runs from the same root that were handed the same
/// entries, each in its own order, end with identical records.
pub proof fn lemma_runs_agree(first: Aggregator, second: Aggregator)
    requires
        first.wf(),
        second.wf(),
        first@.root == second@.root,
        first@.seen.to_multiset() == second@.seen.to_multiset(),
    ensures
        first@.totals == second@.totals,
{
    first.lemma_record_is_tally();
    second.lemma_record_is_tally();
    lemma_order_independent(first@.root, first@.seen, second@.seen);
}

/// Fan-out on directory trees: let a traversal report a tree that stands
/// at `root`, in whatever order. Then for every node of the tree the record
/// holds the path of the node, with the bytes of all regular files at or
/// beneath the node as its total (`u64::MAX` where they are more). For the
/// tree itself that is the size of everything the traversal visited. From a
/// root in normal form every path of the tree is in normal form, as the
/// paths of file entries are.
pub proof fn lemma_tree_fan_out(
    root: Seq<char>,
    tree: Tree,
    node: Tree,
    path: Seq<char>,
    arrival: Seq<EntryView>,
)
    requires
        root.len() > 0,
        well_named(tree),
        located(tree, root, node, path),
        arrival.to_multiset() == listing(tree, root).to_multiset(),
    ensures
        tally(root, arrival).contains_key(path),
        tally(root, arrival)[path] == capped(content_size(node) as int),
        tally(root, arrival)[root] == capped(content_size(tree) as int),
        is_normal(root) ==> is_normal(path),
{
    let report = listing(tree, root);
    lemma_order_independent(root, arrival, report);
    lemma_located(tree, root, node, path);
    let i = choose|i: int| 0 <= i < report.len() && #[trigger] report[i].path == path;
    if is_normal(root) {
        lemma_listing_normal(tree, root);
    }
    assert(on_chain(root, path, report[i].path));
    lemma_subtree_size(tree, root, node, path);
    assert(located(tree, root, tree, root));
    lemma_subtree_size(tree, root, tree, root);
}

/// On directory trees the record holds nothing but the tree: every path
/// in the record of a reported tree is the path of one of its nodes. The
/// lemma hands that node out.
pub proof fn lemma_tree_nothing_else(
    root: Seq<char>,
    tree: Tree,
    arrival: Seq<EntryView>,
    d: Seq<char>,
) -> (node: Tree)
    requires
        root.len() > 0,
        well_named(tree),
        arrival.to_multiset() == listing(tree, root).to_multiset(),
        tally(root, arrival).contains_key(d),
    ensures
        located(tree, root, node, d),
{
    let report = listing(tree, root);
    lemma_order_independent(root, arrival, report);
    if d == root {
        tree
    } else {
        let i = choose|i: int| 0 <= i < report.len() && on_chain(root, d, #[trigger] report[i].path);
        let below = lemma_listed_node(tree, root, i);
        lemma_node_between(tree, root, below, report[i].path, d)
    }
}

} // verus!
