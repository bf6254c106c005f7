//! Directory trees, as a traversal meets them.
//!
//! A tree is what stands on disk; its listing is what a traversal reports of
//! it: one entry for each node, a directory with no bytes of its own and a
//! regular file with its size.

use crate::aggregator::{
    lemma_all_beneath, lemma_nothing_beneath, lemma_size_concat, lemma_total_concat, size_beneath,
    total_size,
};
use crate::entry::EntryView;
use crate::path::{
    is_ancestor, is_normal, lemma_ancestors_comparable, lemma_within_transitive, within,
    SEPARATOR,
};
use vstd::prelude::*;

verus! {

/// A node of a directory tree.
pub ghost enum Tree {
    /// A regular file of `size` bytes.
    File { name: Seq<char>, size: u64 },
    /// A directory with what it holds.
    Dir { name: Seq<char>, children: Seq<Tree> },
}

impl Tree {
    /// The node's own name, the last component of its path.
    pub open spec fn name(self) -> Seq<char> {
        match self {
            Tree::File { name, .. } => name,
            Tree::Dir { name, .. } => name,
        }
    }
}

/// A name that a node can have: not empty, and without a separator in it.
pub open spec fn is_name(name: Seq<char>) -> bool {
    &&& name.len() > 0
    &&& forall|i: int| 0 <= i < name.len() ==> name[i] != SEPARATOR
}

/// The path of the node called `name` directly inside the directory at `parent`.
pub open spec fn child_path(parent: Seq<char>, name: Seq<char>) -> Seq<char> {
    if parent == seq![SEPARATOR] {
        parent + name
    } else {
        parent + seq![SEPARATOR] + name
    }
}

/// The bytes of all regular files at or beneath a node.
pub open spec fn content_size(tree: Tree) -> nat
    decreases tree, 0nat,
{
    match tree {
        Tree::File { size, .. } => size as nat,
        Tree::Dir { children, .. } => content_size_of(children, children.len()),
    }
}

/// The bytes of all regular files at or beneath the first `k` of `children`.
pub open spec fn content_size_of(children: Seq<Tree>, k: nat) -> nat
    decreases children, k,
{
    if k == 0 || k > children.len() {
        0
    } else {
        content_size_of(children, (k - 1) as nat) + content_size(children[k - 1])
    }
}

/// What a traversal reports of the node that stands at `at`: the node
/// itself first, then what lies beneath it, child by child.
pub open spec fn listing(tree: Tree, at: Seq<char>) -> Seq<EntryView>
    decreases tree, 0nat,
{
    match tree {
        Tree::File { size, .. } => seq![EntryView { path: at, size }],
        Tree::Dir { children, .. } => seq![EntryView { path: at, size: 0 }] + listing_of(
            children,
            at,
            children.len(),
        ),
    }
}

/// What a traversal reports of the first `k` of the `children` of the
/// directory at `parent`.
pub open spec fn listing_of(children: Seq<Tree>, parent: Seq<char>, k: nat) -> Seq<EntryView>
    decreases children, k,
{
    if k == 0 || k > children.len() {
        Seq::empty()
    } else {
        listing_of(children, parent, (k - 1) as nat) + listing(
            children[k - 1],
            child_path(parent, children[k - 1].name()),
        )
    }
}

/// Every node beneath `tree` has a proper name, and no directory holds two
/// nodes of the same name. The name of `tree` itself is of no account: where
/// the tree stands is said by the path that goes with it.
pub open spec fn well_named(tree: Tree) -> bool
    decreases tree,
{
    match tree {
        Tree::File { .. } => true,
        Tree::Dir { children, .. } => each_well_named(children),
    }
}

/// What `well_named` asks of the children of a directory: each has a
/// proper name and is well named itself, and no two share a name.
pub open spec fn each_well_named(children: Seq<Tree>) -> bool
    decreases children,
{
    &&& forall|i: int|
        0 <= i < children.len() ==> is_name(#[trigger] children[i].name()) && well_named(
            children[i],
        )
    &&& forall|i: int, j: int|
        0 <= i < j < children.len() ==> children[i].name() != children[j].name()
}

/// `node` is the node of `tree` that stands at `path`, where `tree` itself
/// stands at `at`.
pub open spec fn located(tree: Tree, at: Seq<char>, node: Tree, path: Seq<char>) -> bool
    decreases tree,
{
    ||| (tree == node && at == path)
    ||| match tree {
        Tree::File { .. } => false,
        Tree::Dir { children, .. } => exists|k: int|
            #![trigger children[k]]
            0 <= k < children.len() && located(
                children[k],
                child_path(at, children[k].name()),
                node,
                path,
            ),
    }
}

/// A child stands directly beneath its directory.
pub proof fn lemma_child_beneath(parent: Seq<char>, name: Seq<char>)
    requires
        parent.len() > 0,
        name.len() > 0,
    ensures
        is_ancestor(parent, child_path(parent, name)),
{
    let child = child_path(parent, name);
    assert(child.subrange(0, parent.len() as int) =~= parent);
}

/// Two children of one directory that differ in name stand apart: neither
/// lies within the other.
pub proof fn lemma_siblings_apart(parent: Seq<char>, one: Seq<char>, other: Seq<char>)
    requires
        parent.len() > 0,
        is_name(one),
        is_name(other),
        one != other,
    ensures
        !within(child_path(parent, one), child_path(parent, other)),
{
    let x = child_path(parent, one);
    let y = child_path(parent, other);
    let off = x.len() - one.len();
    assert(y.len() - other.len() == off);
    assert(forall|i: int| 0 <= i < one.len() ==> x[off + i] == one[i]);
    assert(forall|i: int| 0 <= i < other.len() ==> y[off + i] == other[i]);
    if x == y {
        assert(one =~= other);
    }
    if is_ancestor(x, y) {
        assert(x.len() >= 2);
        assert(x[0] == seq![SEPARATOR][0] ==> x != seq![SEPARATOR]);
        assert(y[off + (x.len() - off)] == other[x.len() - off]);
    }
}

/// What lies within one of two paths that stand apart does not lie beneath
/// anything within the other.
proof fn lemma_apart(one: Seq<char>, other: Seq<char>, p: Seq<char>, e: Seq<char>)
    requires
        !within(one, other),
        !within(other, one),
        within(one, p),
        within(other, e),
    ensures
        !within(p, e),
{
    if within(p, e) {
        lemma_within_transitive(one, p, e);
        if one.len() <= other.len() {
            lemma_ancestors_comparable(one, other, e);
        } else {
            lemma_ancestors_comparable(other, one, e);
        }
    }
}

/// Everything that a traversal reports of a node lies at or beneath the
/// path where the node stands.
pub proof fn lemma_listing_within(tree: Tree, at: Seq<char>)
    requires
        well_named(tree),
        at.len() > 0,
    ensures
        forall|i: int|
            0 <= i < listing(tree, at).len() ==> within(at, #[trigger] listing(tree, at)[i].path),
    decreases tree, 0nat,
{
    match tree {
        Tree::File { size, .. } => {
            assert(seq![EntryView { path: at, size }].len() == 1);
        },
        Tree::Dir { children, .. } => {
            let own = seq![EntryView { path: at, size: 0 }];
            let rest = listing_of(children, at, children.len());
            lemma_listing_of_within(children, at, children.len());
            assert(own.len() == 1);
            assert forall|i: int| 0 <= i < (own + rest).len() implies within(
                at,
                #[trigger] (own + rest)[i].path,
            ) by {
                if i > 0 {
                    assert((own + rest)[i] == rest[i - 1]);
                }
            }
        },
    }
}

proof fn lemma_listing_of_within(children: Seq<Tree>, parent: Seq<char>, k: nat)
    requires
        each_well_named(children),
        parent.len() > 0,
        k <= children.len(),
    ensures
        forall|i: int|
            0 <= i < listing_of(children, parent, k).len() ==> within(
                parent,
                #[trigger] listing_of(children, parent, k)[i].path,
            ),
    decreases children, k,
{
    if k > 0 {
        let child = children[k - 1];
        let at = child_path(parent, child.name());
        let earlier = listing_of(children, parent, (k - 1) as nat);
        let own = listing(child, at);
        lemma_listing_of_within(children, parent, (k - 1) as nat);
        lemma_listing_within(child, at);
        lemma_child_beneath(parent, child.name());
        assert forall|i: int| 0 <= i < (earlier + own).len() implies within(
            parent,
            #[trigger] (earlier + own)[i].path,
        ) by {
            if i >= earlier.len() {
                assert((earlier + own)[i] == own[i - earlier.len()]);
                lemma_within_transitive(parent, at, own[i - earlier.len()].path);
            } else {
                assert((earlier + own)[i] == earlier[i]);
            }
        }
    }
}

/// The sizes that a traversal reports of a node add up to the bytes of the
/// regular files at or beneath it.
pub proof fn lemma_listing_total(tree: Tree, at: Seq<char>)
    ensures
        total_size(listing(tree, at)) == content_size(tree),
    decreases tree, 0nat,
{
    match tree {
        Tree::File { size, .. } => {
            let own = seq![EntryView { path: at, size }];
            assert(own.drop_last() =~= Seq::<EntryView>::empty());
            assert(total_size(own.drop_last()) == 0);
        },
        Tree::Dir { children, .. } => {
            let own = seq![EntryView { path: at, size: 0 }];
            assert(own.drop_last() =~= Seq::<EntryView>::empty());
            assert(total_size(own.drop_last()) == 0);
            lemma_listing_of_total(children, at, children.len());
            lemma_total_concat(own, listing_of(children, at, children.len()));
        },
    }
}

proof fn lemma_listing_of_total(children: Seq<Tree>, parent: Seq<char>, k: nat)
    requires
        k <= children.len(),
    ensures
        total_size(listing_of(children, parent, k)) == content_size_of(children, k),
    decreases children, k,
{
    if k > 0 {
        let child = children[k - 1];
        let at = child_path(parent, child.name());
        lemma_listing_of_total(children, parent, (k - 1) as nat);
        lemma_listing_total(child, at);
        lemma_total_concat(listing_of(children, parent, (k - 1) as nat), listing(child, at));
    }
}

/// What a traversal reports of a node begins with the node itself.
proof fn lemma_listing_head(tree: Tree, at: Seq<char>)
    ensures
        listing(tree, at).len() > 0,
        listing(tree, at)[0].path == at,
{
    match tree {
        Tree::File { size, .. } => {
            assert(seq![EntryView { path: at, size }].len() == 1);
        },
        Tree::Dir { children, .. } => {
            let own = seq![EntryView { path: at, size: 0 }];
            assert(own.len() == 1);
            assert((own + listing_of(children, at, children.len()))[0] == own[0]);
        },
    }
}

/// A node of a tree stands at or beneath the path where the tree stands,
/// is well named where the tree is, and is reported under its path.
pub proof fn lemma_located(tree: Tree, at: Seq<char>, node: Tree, path: Seq<char>)
    requires
        well_named(tree),
        at.len() > 0,
        located(tree, at, node, path),
    ensures
        within(at, path),
        well_named(node),
        exists|i: int|
            0 <= i < listing(tree, at).len() && #[trigger] listing(tree, at)[i].path == path,
    decreases tree, 0nat,
{
    if tree == node && at == path {
        assert(listing(tree, at).len() > 0 && listing(tree, at)[0].path == path) by {
            lemma_listing_head(tree, at);
        }
    } else {
        assert(tree is Dir);
        let children = tree->children;
        let k = choose|k: int|
            #![trigger children[k]]
            0 <= k < children.len() && located(
                children[k],
                child_path(at, children[k].name()),
                node,
                path,
            );
        let child = children[k];
        let below = child_path(at, child.name());
        lemma_child_beneath(at, child.name());
        lemma_located(child, below, node, path);
        lemma_within_transitive(at, below, path);
        let i = choose|i: int|
            0 <= i < listing(child, below).len() && #[trigger] listing(child, below)[i].path
                == path;
        lemma_listed_child(children, at, children.len(), k, i);
        let own = seq![EntryView { path: at, size: 0 }];
        let rest = listing_of(children, at, children.len());
        let j = choose|j: int| 0 <= j < rest.len() && #[trigger] rest[j].path == path;
        assert(own.len() == 1);
        assert((own + rest)[j + 1] == rest[j]);
        assert(listing(tree, at)[j + 1].path == path);
    }
}

/// What is reported of one of the first `n` children is among what is
/// reported of them all.
proof fn lemma_listed_child(children: Seq<Tree>, parent: Seq<char>, n: nat, k: int, i: int)
    requires
        n <= children.len(),
        0 <= k < n,
        0 <= i < listing(children[k], child_path(parent, children[k].name())).len(),
    ensures
        exists|j: int|
            0 <= j < listing_of(children, parent, n).len() && #[trigger] listing_of(
                children,
                parent,
                n,
            )[j].path == listing(children[k], child_path(parent, children[k].name()))[i].path,
    decreases n,
{
    let earlier = listing_of(children, parent, (n - 1) as nat);
    let last = listing(children[n - 1], child_path(parent, children[n - 1].name()));
    let wanted = listing(children[k], child_path(parent, children[k].name()))[i].path;
    if k == n - 1 {
        assert((earlier + last)[earlier.len() + i] == last[i]);
        assert(listing_of(children, parent, n)[earlier.len() + i].path == wanted);
    } else {
        lemma_listed_child(children, parent, (n - 1) as nat, k, i);
        let j = choose|j: int| 0 <= j < earlier.len() && #[trigger] earlier[j].path == wanted;
        assert((earlier + last)[j] == earlier[j]);
        assert(listing_of(children, parent, n)[j].path == wanted);
    }
}

/// Of what a traversal reports of a tree, the sizes at or beneath the path
/// of any one node add up to the bytes of the regular files at or beneath
/// that node.
pub proof fn lemma_subtree_size(tree: Tree, at: Seq<char>, node: Tree, path: Seq<char>)
    requires
        well_named(tree),
        at.len() > 0,
        located(tree, at, node, path),
    ensures
        size_beneath(path, listing(tree, at)) == content_size(node),
    decreases tree, 0nat,
{
    if tree == node && at == path {
        lemma_listing_within(tree, at);
        lemma_all_beneath(at, listing(tree, at));
        lemma_listing_total(tree, at);
    } else {
        assert(tree is Dir);
        let children = tree->children;
        let k = choose|k: int|
            #![trigger children[k]]
            0 <= k < children.len() && located(
                children[k],
                child_path(at, children[k].name()),
                node,
                path,
            );
        let own = seq![EntryView { path: at, size: 0 }];
        assert(own.drop_last() =~= Seq::<EntryView>::empty());
        assert(size_beneath(path, own.drop_last()) == 0);
        assert(size_beneath(path, own) == 0);
        lemma_size_concat(path, own, listing_of(children, at, children.len()));
        lemma_children_size(children, at, children.len(), k, node, path);
    }
}

/// Of the first `n` children of a directory, only the one that holds the
/// node adds to the sum at or beneath the node's path.
proof fn lemma_children_size(
    children: Seq<Tree>,
    parent: Seq<char>,
    n: nat,
    k: int,
    node: Tree,
    path: Seq<char>,
)
    requires
        each_well_named(children),
        parent.len() > 0,
        n <= children.len(),
        0 <= k < children.len(),
        located(children[k], child_path(parent, children[k].name()), node, path),
    ensures
        size_beneath(path, listing_of(children, parent, n)) == if k < n {
            content_size(node)
        } else {
            0
        },
    decreases children, n,
{
    if n > 0 {
        let child = children[n - 1];
        let at = child_path(parent, child.name());
        let holder = child_path(parent, children[k].name());
        let own = listing(child, at);
        lemma_children_size(children, parent, (n - 1) as nat, k, node, path);
        lemma_size_concat(path, listing_of(children, parent, (n - 1) as nat), own);
        lemma_child_beneath(parent, child.name());
        if k == n - 1 {
            lemma_subtree_size(child, at, node, path);
        } else {
            lemma_child_beneath(parent, children[k].name());
            lemma_located(children[k], holder, node, path);
            lemma_siblings_apart(parent, children[k].name(), child.name());
            lemma_siblings_apart(parent, child.name(), children[k].name());
            lemma_listing_within(child, at);
            assert forall|i: int| 0 <= i < own.len() implies !within(
                path,
                #[trigger] own[i].path,
            ) by {
                lemma_apart(holder, at, path, own[i].path);
            }
            lemma_nothing_beneath(path, own);
        }
    }
}

/// Nothing stands between a directory and one of its children.
proof fn lemma_no_room(parent: Seq<char>, name: Seq<char>, d: Seq<char>)
    requires
        parent.len() > 0,
        is_name(name),
        is_ancestor(parent, d),
    ensures
        !is_ancestor(d, child_path(parent, name)),
{
    let child = child_path(parent, name);
    let off = child.len() - name.len();
    assert(forall|i: int| 0 <= i < name.len() ==> child[off + i] == name[i]);
    if is_ancestor(d, child) {
        assert(d.len() >= off);
        assert(child[off + (d.len() - off)] == name[d.len() - off]);
    }
}

/// Every entry that a traversal reports of a tree is the entry of one of
/// its nodes; the lemma hands that node out.
pub proof fn lemma_listed_node(tree: Tree, at: Seq<char>, i: int) -> (node: Tree)
    requires
        0 <= i < listing(tree, at).len(),
    ensures
        located(tree, at, node, listing(tree, at)[i].path),
    decreases tree, 0nat,
{
    match tree {
        Tree::File { size, .. } => {
            assert(seq![EntryView { path: at, size }].len() == 1);
            tree
        },
        Tree::Dir { children, .. } => {
            let own = seq![EntryView { path: at, size: 0 }];
            let rest = listing_of(children, at, children.len());
            assert(own.len() == 1);
            if i == 0 {
                tree
            } else {
                assert((own + rest)[i] == rest[i - 1]);
                let (k, node) = lemma_listed_child_node(children, at, children.len(), i - 1);
                assert(located(
                    children[k],
                    child_path(at, children[k].name()),
                    node,
                    listing(tree, at)[i].path,
                ));
                node
            }
        },
    }
}

proof fn lemma_listed_child_node(children: Seq<Tree>, parent: Seq<char>, n: nat, j: int) -> (found:
    (int, Tree))
    requires
        n <= children.len(),
        0 <= j < listing_of(children, parent, n).len(),
    ensures
        0 <= found.0 < n,
        located(
            children[found.0],
            child_path(parent, children[found.0].name()),
            found.1,
            listing_of(children, parent, n)[j].path,
        ),
    decreases children, n,
{
    let earlier = listing_of(children, parent, (n - 1) as nat);
    let last = listing(children[n - 1], child_path(parent, children[n - 1].name()));
    if j < earlier.len() {
        assert((earlier + last)[j] == earlier[j]);
        lemma_listed_child_node(children, parent, (n - 1) as nat, j)
    } else {
        assert((earlier + last)[j] == last[j - earlier.len()]);
        let node = lemma_listed_node(
            children[n - 1],
            child_path(parent, children[n - 1].name()),
            j - earlier.len(),
        );
        (n - 1, node)
    }
}

/// What lies between the place of a tree and one of its nodes is the
/// place of a node too; the lemma hands that node out.
pub proof fn lemma_node_between(
    tree: Tree,
    at: Seq<char>,
    node: Tree,
    path: Seq<char>,
    d: Seq<char>,
) -> (found: Tree)
    requires
        well_named(tree),
        at.len() > 0,
        located(tree, at, node, path),
        within(at, d),
        within(d, path),
    ensures
        located(tree, at, found, d),
    decreases tree,
{
    if d == at {
        tree
    } else {
        assert(tree is Dir);
        let children = tree->children;
        let k = choose|k: int|
            #![trigger children[k]]
            0 <= k < children.len() && located(
                children[k],
                child_path(at, children[k].name()),
                node,
                path,
            );
        let child = children[k];
        let below = child_path(at, child.name());
        lemma_located(child, below, node, path);
        lemma_child_beneath(at, child.name());
        if d.len() >= below.len() {
            lemma_ancestors_comparable(below, d, path);
            let found = lemma_node_between(child, below, node, path, d);
            assert(located(children[k], child_path(at, children[k].name()), found, d));
            found
        } else {
            lemma_ancestors_comparable(d, below, path);
            lemma_no_room(at, child.name(), d);
            tree
        }
    }
}

/// The child of a directory whose path is in normal form has a path in
/// normal form.
pub proof fn lemma_child_normal(parent: Seq<char>, name: Seq<char>)
    requires
        parent.len() > 0,
        is_normal(parent),
        is_name(name),
    ensures
        is_normal(child_path(parent, name)),
{
    let child = child_path(parent, name);
    let off = child.len() - name.len();
    assert(forall|i: int| 0 <= i < name.len() ==> child[off + i] == name[i]);
    assert(forall|i: int| 0 <= i < parent.len() ==> child[i] == parent[i]);
    assert(child[off + (name.len() - 1)] == name[name.len() - 1]);
    assert forall|i: int| 0 < i < child.len() implies !(#[trigger] child[i] == SEPARATOR
        && child[i - 1] == SEPARATOR) by {
        if i >= off {
            assert(child[off + (i - off)] == name[i - off]);
        } else if i < parent.len() {
            assert(parent[i] == child[i]);
        } else {
            assert(parent != seq![SEPARATOR]);
            assert(parent.last() == child[i - 1]);
            if parent.len() == 1 {
                assert(parent =~= seq![parent[0]]);
            }
        }
    }
}

/// A traversal that starts from a path in normal form reports paths in
/// normal form only.
pub proof fn lemma_listing_normal(tree: Tree, at: Seq<char>)
    requires
        well_named(tree),
        at.len() > 0,
        is_normal(at),
    ensures
        forall|i: int|
            0 <= i < listing(tree, at).len() ==> is_normal(#[trigger] listing(tree, at)[i].path),
    decreases tree, 0nat,
{
    match tree {
        Tree::File { size, .. } => {
            assert(seq![EntryView { path: at, size }].len() == 1);
        },
        Tree::Dir { children, .. } => {
            let own = seq![EntryView { path: at, size: 0 }];
            let rest = listing_of(children, at, children.len());
            lemma_listing_of_normal(children, at, children.len());
            assert(own.len() == 1);
            assert forall|i: int| 0 <= i < (own + rest).len() implies is_normal(
                #[trigger] (own + rest)[i].path,
            ) by {
                if i > 0 {
                    assert((own + rest)[i] == rest[i - 1]);
                }
            }
        },
    }
}

proof fn lemma_listing_of_normal(children: Seq<Tree>, parent: Seq<char>, k: nat)
    requires
        each_well_named(children),
        parent.len() > 0,
        is_normal(parent),
        k <= children.len(),
    ensures
        forall|i: int|
            0 <= i < listing_of(children, parent, k).len() ==> is_normal(
                #[trigger] listing_of(children, parent, k)[i].path,
            ),
    decreases children, k,
{
    if k > 0 {
        let child = children[k - 1];
        let at = child_path(parent, child.name());
        let earlier = listing_of(children, parent, (k - 1) as nat);
        let own = listing(child, at);
        lemma_listing_of_normal(children, parent, (k - 1) as nat);
        lemma_child_normal(parent, child.name());
        lemma_listing_normal(child, at);
        assert forall|i: int| 0 <= i < (earlier + own).len() implies is_normal(
            #[trigger] (earlier + own)[i].path,
        ) by {
            if i >= earlier.len() {
                assert((earlier + own)[i] == own[i - earlier.len()]);
            } else {
                assert((earlier + own)[i] == earlier[i]);
            }
        }
    }
}

} // verus!
