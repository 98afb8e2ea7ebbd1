//! Whole subtrees of the table: what lies below a node, and what is left
//! when a directory goes with everything below it.

use vstd::prelude::*;
use super::inter::directory::{
    find, has_ino, lemma_find_contains, lemma_without, lemma_without_contains, sorted, EntryView,
};
use super::inter::node::NodeView;
use super::tree::{
    children_linked, fresh_table, lemma_fresh_table_wf, nth_parent, parent_of, parents_linked,
    ranked, seeded, single_names, subtree, table_wf, under, without_entry, NO_PARENT, ROOT_INO,
};

verus! {

/// The table after the directory `ino`, which is the child `name` of
/// `parent`, was removed with everything below it.
pub open spec fn pruned(t: Map<u64, NodeView>, parent: u64, name: Seq<char>, ino: u64) -> Map<
    u64,
    NodeView,
> {
    t.remove_keys(subtree(t, ino)).insert(parent, without_entry(t[parent], name))
}

/// Following parents from outside the table leads nowhere.
pub proof fn lemma_chain_outside(t: Map<u64, NodeView>, id: u64, n: nat)
    requires
        !t.contains_key(NO_PARENT),
        !t.contains_key(id),
    ensures
        nth_parent(t, id, n) == if n == 0 {
            id
        } else {
            NO_PARENT
        },
    decreases n,
{
    if n > 0 {
        lemma_chain_outside(t, NO_PARENT, (n - 1) as nat);
    }
}

/// A node lies below whatever its parent lies below.
pub proof fn lemma_under_child(t: Map<u64, NodeView>, anc: u64, id: u64)
    requires
        under(t, anc, parent_of(t, id)),
    ensures
        under(t, anc, id),
{
    let n = choose|n: nat| nth_parent(t, parent_of(t, id), n) == anc;
    assert(nth_parent(t, id, n + 1) == anc);
}

/// What lies below `anc` and is not `anc` has its parent below `anc` too.
pub proof fn lemma_under_parent(t: Map<u64, NodeView>, anc: u64, id: u64)
    requires
        under(t, anc, id),
        id != anc,
    ensures
        under(t, anc, parent_of(t, id)),
{
    let n = choose|n: nat| nth_parent(t, id, n) == anc;
    assert(nth_parent(t, parent_of(t, id), (n - 1) as nat) == anc);
}

/// What lies below a node of the table and is not that node has its parent
/// in the table, and below that node too.
pub proof fn lemma_under_inside(t: Map<u64, NodeView>, anc: u64, id: u64)
    requires
        table_wf(t),
        t.contains_key(anc),
        t.contains_key(id),
        under(t, anc, id),
        id != anc,
    ensures
        t.contains_key(t[id].parent),
        under(t, anc, t[id].parent),
{
    lemma_under_parent(t, anc, id);
    if id == ROOT_INO {
        let n = choose|n: nat| nth_parent(t, NO_PARENT, n) == anc;
        lemma_chain_outside(t, NO_PARENT, n);
    }
}

/// Along the parents of a node the rank falls by one at least with each
/// step, as long as the steps stay inside the table.
pub proof fn lemma_rank_chain(t: Map<u64, NodeView>, r: Map<u64, nat>, id: u64, n: nat)
    requires
        table_wf(t),
        ranked(t, r),
        t.contains_key(id),
        nth_parent(t, id, n) != NO_PARENT,
    ensures
        t.contains_key(nth_parent(t, id, n)),
        r[nth_parent(t, id, n)] + n <= r[id],
    decreases n,
{
    if n > 0 {
        let p = parent_of(t, id);
        if !t.contains_key(p) {
            lemma_chain_outside(t, p, (n - 1) as nat);
            assert(id == ROOT_INO);
        } else {
            lemma_rank_chain(t, r, p, (n - 1) as nat);
        }
    }
}

/// A directory does not lie below its own child.
pub proof fn lemma_parent_not_under(t: Map<u64, NodeView>, ino: u64)
    requires
        table_wf(t),
        t.contains_key(ino),
        ino != ROOT_INO,
    ensures
        !under(t, ino, t[ino].parent),
        !under(t, ino, ROOT_INO),
{
    let p = t[ino].parent;
    let r = choose|r: Map<u64, nat>| ranked(t, r);
    if under(t, ino, p) {
        let n = choose|n: nat| nth_parent(t, p, n) == ino;
        lemma_rank_chain(t, r, p, n);
    }
    if under(t, ino, ROOT_INO) {
        let n = choose|n: nat| nth_parent(t, ROOT_INO, n) == ino;
        lemma_rank_chain(t, r, ROOT_INO, n);
        if n > 0 {
            lemma_chain_outside(t, NO_PARENT, (n - 1) as nat);
        }
    }
}

/// Every node of the table lies below the root: the table holds no node
/// that the root does not reach.
pub proof fn lemma_reaches_root(t: Map<u64, NodeView>, id: u64)
    requires
        table_wf(t),
        t.contains_key(id),
    ensures
        under(t, ROOT_INO, id),
{
    let r = choose|r: Map<u64, nat>| ranked(t, r);
    lemma_reaches_root_ranked(t, r, id);
}

proof fn lemma_reaches_root_ranked(t: Map<u64, NodeView>, r: Map<u64, nat>, id: u64)
    requires
        table_wf(t),
        ranked(t, r),
        t.contains_key(id),
    ensures
        under(t, ROOT_INO, id),
    decreases r[id],
{
    if id == ROOT_INO {
        assert(nth_parent(t, id, 0) == ROOT_INO);
    } else {
        lemma_reaches_root_ranked(t, r, t[id].parent);
        lemma_under_child(t, ROOT_INO, id);
    }
}

/// In a tree, what lies below a node and is not that node comes to it
/// through one of its children.
pub proof fn lemma_child_on_chain(t: Map<u64, NodeView>, anc: u64, id: u64, n: nat)
    requires
        table_wf(t),
        t.contains_key(anc),
        t.contains_key(id),
        id != anc,
        nth_parent(t, id, n) == anc,
    ensures
        exists|c: u64| #[trigger] t.contains_key(c) && c != ROOT_INO && t[c].parent == anc,
    decreases n,
{
    if n > 0 {
        let p = t[id].parent;
        if p == anc {
            assert(t.contains_key(id) && id != ROOT_INO && t[id].parent == anc);
        } else {
            if !t.contains_key(p) {
                lemma_chain_outside(t, p, (n - 1) as nat);
            }
            lemma_child_on_chain(t, anc, p, (n - 1) as nat);
        }
    }
}

/// A table that was given a new, empty root is a tree exactly where it
/// holds nothing else: no other node hangs under a root without children.
pub proof fn lemma_seeded_wf(t: Map<u64, NodeView>)
    requires
        t.dom().finite(),
    ensures
        table_wf(seeded(t)) <==> t.dom().subset_of(set![ROOT_INO]),
{
    let s = seeded(t);
    if t.dom().subset_of(set![ROOT_INO]) {
        assert(s =~= fresh_table());
        lemma_fresh_table_wf();
    }
    if table_wf(s) {
        assert(s[ROOT_INO].entries() =~= Seq::<EntryView>::empty());
        assert forall|k: u64| t.dom().contains(k) implies k == ROOT_INO by {
            if k != ROOT_INO {
                assert(s.contains_key(k));
                lemma_reaches_root(s, k);
                let n = choose|n: nat| nth_parent(s, k, n) == ROOT_INO;
                lemma_child_on_chain(s, ROOT_INO, k, n);
                let c = choose|c: u64| #[trigger]
                    s.contains_key(c) && c != ROOT_INO && s[c].parent == ROOT_INO;
                let x = choose|x: EntryView| #[trigger]
                    s[ROOT_INO].entries().contains(x) && x.ino == c;
            }
        }
    }
}

/// Among nodes of which each that lies below `anc` is not `anc` and has its
/// parent among them, none lies below `anc`.
pub proof fn lemma_closed_upwards(t: Map<u64, NodeView>, left: Set<u64>, anc: u64, id: u64, n: nat)
    requires
        forall|y: u64| #[trigger]
            left.contains(y) && under(t, anc, y) ==> y != anc && t.contains_key(y) && left.contains(
                t[y].parent,
            ),
        left.contains(id),
    ensures
        nth_parent(t, id, n) != anc,
    decreases n,
{
    if nth_parent(t, id, n) == anc {
        assert(under(t, anc, id));
        if n > 0 {
            lemma_closed_upwards(t, left, anc, t[id].parent, (n - 1) as nat);
        }
    }
}

/// Removing a directory with everything below it keeps the table a tree.
pub proof fn lemma_pruned_wf(t: Map<u64, NodeView>, parent: u64, name: Seq<char>, ino: u64)
    requires
        table_wf(t),
        t.contains_key(parent),
        find(t[parent].entries(), name) == Some(ino),
    ensures
        table_wf(pruned(t, parent, name, ino)),
        t.contains_key(ino),
        !subtree(t, ino).contains(parent),
        !subtree(t, ino).contains(ROOT_INO),
        subtree(t, ino).contains(ino),
{
    let u = pruned(t, parent, name, ino);
    let gone = subtree(t, ino);
    let s = t[parent].entries();
    let e = EntryView { name, ino };
    assert(t[parent].wf());
    assert(sorted(s)) by {
        if t[parent].children is None {
            assert(s =~= Seq::<EntryView>::empty());
        }
    }
    lemma_find_contains(s, name, ino);
    assert(s.contains(e));
    assert(t[parent].is_dir());
    lemma_without(s, name);
    lemma_without_contains(s, name);
    lemma_parent_not_under(t, ino);
    assert(nth_parent(t, ino, 0) == ino);
    assert(under(t, ino, ino));
    assert(u[parent].entries() == super::inter::directory::without(s, name));
    assert forall|id: u64| u.contains_key(id) implies t.contains_key(id) && !under(t, ino, id)
        && #[trigger] u[id].parent == t[id].parent by {}
    assert forall|id: u64| u.contains_key(id) && id != parent implies #[trigger] u[id] == t[id] by {}
    assert(u.dom() =~= t.dom().difference(gone));
    assert forall|id: u64| #[trigger] u.contains_key(id) implies u[id].wf() by {
        assert(t.contains_key(id));
    }
    assert(children_linked(u)) by {
        assert forall|d: u64, x: EntryView|
            u.contains_key(d) && #[trigger] u[d].entries().contains(x) implies u.contains_key(x.ino)
            && u[x.ino].parent == d && x.ino != ROOT_INO by {
            assert(t[d].entries().contains(x));
            if under(t, ino, x.ino) {
                if x.ino == ino {
                    assert(d == parent);
                    assert(x == e);
                } else {
                    lemma_under_parent(t, ino, x.ino);
                }
            }
        }
    }
    assert(parents_linked(u)) by {
        assert forall|id: u64| #[trigger] u.contains_key(id) && id != ROOT_INO implies u.contains_key(
            u[id].parent,
        ) && has_ino(u[u[id].parent].entries(), id) by {
            assert(t.contains_key(id));
            let p = t[id].parent;
            if under(t, ino, p) {
                lemma_under_child(t, ino, id);
            }
            let x = choose|x: EntryView| #[trigger] t[p].entries().contains(x) && x.ino == id;
            if p == parent {
                assert(x.name != name) by {
                    lemma_find_contains(s, x.name, x.ino);
                }
            }
            assert(u[p].entries().contains(x));
        }
    }
    assert(single_names(u)) by {
        assert forall|d: u64, e1: EntryView, e2: EntryView|
            u.contains_key(d) && #[trigger] u[d].entries().contains(e1) && #[trigger] u[d].entries().contains(
                e2,
            ) && e1.ino == e2.ino implies e1 == e2 by {
            assert(t[d].entries().contains(e1));
            assert(t[d].entries().contains(e2));
        }
    }
    let r = choose|r: Map<u64, nat>| ranked(t, r);
    assert(ranked(u, r)) by {
        assert forall|id: u64| #[trigger] u.contains_key(id) && id != ROOT_INO implies r[u[id].parent]
            < r[id] by {
            assert(t.contains_key(id));
        }
    }
}

} // verus!
