//! Moving an entry from one directory to another, without tearing the tree.

use vstd::prelude::*;
use super::inter::directory::{
    find, has_ino, has_name, lemma_find_contains, lemma_put, lemma_put_contains, lemma_without,
    lemma_without_contains, put, sorted, without, EntryView,
};
use super::inter::node::NodeView;
use super::subtree::{lemma_chain_outside, lemma_under_child, lemma_under_inside};
use super::tree::{
    children_linked, lemma_unlinked_wf, nth_parent, parent_of, parents_linked, ranked,
    single_names, table_wf, under, unlinked, with_entry, without_entry, NO_PARENT, ROOT_INO,
};

verus! {

/// `node` with `parent` as its stored parent.
pub open spec fn with_parent(node: NodeView, parent: u64) -> NodeView {
    NodeView { parent, ..node }
}

/// The table after the child `name` of `parent`, which is `ino`, became the
/// child `newname` of `newparent`.
pub open spec fn moved(
    t: Map<u64, NodeView>,
    parent: u64,
    name: Seq<char>,
    newparent: u64,
    newname: Seq<char>,
    ino: u64,
) -> Map<u64, NodeView> {
    let a = t.insert(parent, without_entry(t[parent], name));
    let b = a.insert(newparent, with_entry(a[newparent], newname, ino));
    b.insert(ino, with_parent(b[ino], newparent))
}

/// The table after the child `name` of `parent` became the child `newname`
/// of `newparent`. Where `newname` was another child of `newparent`, that
/// child has left the table; where it was the moved entry itself, nothing
/// has changed.
pub open spec fn renamed(
    t: Map<u64, NodeView>,
    parent: u64,
    name: Seq<char>,
    newparent: u64,
    newname: Seq<char>,
) -> Map<u64, NodeView> {
    let ino = find(t[parent].entries(), name)->0;
    match find(t[newparent].entries(), newname) {
        Some(other) => if other == ino {
            t
        } else {
            moved(unlinked(t, newparent, newname, other), parent, name, newparent, newname, ino)
        },
        None => moved(t, parent, name, newparent, newname, ino),
    }
}

/// Following parents `n + k` times is following them `n` times and then
/// `k` times.
pub proof fn lemma_chain_add(t: Map<u64, NodeView>, id: u64, n: nat, k: nat)
    ensures
        nth_parent(t, id, n + k) == nth_parent(t, nth_parent(t, id, n), k),
    decreases n,
{
    if n > 0 {
        lemma_chain_add(t, parent_of(t, id), (n - 1) as nat, k);
    }
}

/// A chain of parents in a part of the table is a chain in the table.
pub proof fn lemma_chain_in_part(
    part: Map<u64, NodeView>,
    t: Map<u64, NodeView>,
    id: u64,
    n: nat,
)
    requires
        !part.contains_key(NO_PARENT),
        forall|x: u64| #[trigger]
            part.contains_key(x) ==> t.contains_key(x) && part[x].parent == t[x].parent,
        part.contains_key(id),
        nth_parent(part, id, n) != NO_PARENT,
    ensures
        nth_parent(t, id, n) == nth_parent(part, id, n),
    decreases n,
{
    if n > 0 {
        let p = part[id].parent;
        assert(nth_parent(part, id, n) == nth_parent(part, p, (n - 1) as nat));
        assert(nth_parent(t, id, n) == nth_parent(t, p, (n - 1) as nat));
        if part.contains_key(p) {
            lemma_chain_in_part(part, t, p, (n - 1) as nat);
        } else {
            lemma_chain_outside(part, p, (n - 1) as nat);
            assert(nth_parent(t, p, 0) == p);
        }
    }
}

/// Moving an entry to a free name of a directory that does not lie below
/// it keeps the table a tree.
pub proof fn lemma_moved_wf(
    t: Map<u64, NodeView>,
    parent: u64,
    name: Seq<char>,
    newparent: u64,
    newname: Seq<char>,
    ino: u64,
)
    requires
        table_wf(t),
        t.contains_key(parent),
        find(t[parent].entries(), name) == Some(ino),
        t.contains_key(newparent),
        t[newparent].is_dir(),
        !has_name(t[newparent].entries(), newname),
        !under(t, ino, newparent),
    ensures
        table_wf(moved(t, parent, name, newparent, newname, ino)),
{
    let m = moved(t, parent, name, newparent, newname, ino);
    let a = t.insert(parent, without_entry(t[parent], name));
    let s = t[parent].entries();
    let e = EntryView { name, ino };
    let ne = EntryView { name: newname, ino };
    assert(t[parent].wf());
    assert(t[newparent].wf());
    assert(sorted(s)) by {
        if t[parent].children is None {
            assert(s =~= Seq::<EntryView>::empty());
        }
    }
    lemma_find_contains(s, name, ino);
    assert(s.contains(e));
    assert(t[parent].is_dir());
    assert(t.contains_key(ino) && t[ino].parent == parent && ino != ROOT_INO);
    assert(nth_parent(t, ino, 0) == ino);
    assert(ino != newparent);
    let r = choose|r: Map<u64, nat>| ranked(t, r);
    assert(ino != parent);
    lemma_without(s, name);
    lemma_without_contains(s, name);
    let s2 = a[newparent].entries();
    assert(sorted(s2));
    assert(!has_name(s2, newname));
    lemma_put(s2, newname, ino);
    lemma_put_contains(s2, newname, ino);
    assert(m[newparent].entries() == put(s2, newname, ino));
    assert(newparent != parent ==> m[parent].entries() == without(s, name));
    assert(m.dom() =~= t.dom());
    assert forall|id: u64| m.contains_key(id) implies t.contains_key(id) && (#[trigger] m[id].parent)
        == (if id == ino {
        newparent
    } else {
        t[id].parent
    }) by {}
    assert forall|id: u64| m.contains_key(id) && id != parent && id != newparent implies (
    #[trigger] m[id].entries()) == t[id].entries() by {}
    assert forall|id: u64| #[trigger] m.contains_key(id) implies m[id].wf() by {
        assert(t.contains_key(id));
        assert(t[id].wf());
    }
    // every entry of the new table was one of the old, or is the moved one
    assert forall|d: u64, x: EntryView|
        m.contains_key(d) && #[trigger] m[d].entries().contains(x) implies (d == newparent && x == ne)
        || (t[d].entries().contains(x) && x.ino != ino) by {
        if d == newparent && x == ne {
        } else {
            assert(t[d].entries().contains(x));
            if x.ino == ino {
                assert(d == parent);
                assert(x == e);
            }
        }
    }
    assert(children_linked(m)) by {
        assert forall|d: u64, x: EntryView|
            m.contains_key(d) && #[trigger] m[d].entries().contains(x) implies m.contains_key(x.ino)
            && m[x.ino].parent == d && x.ino != ROOT_INO by {
            if d == newparent && x == ne {
            } else {
                assert(t[d].entries().contains(x));
            }
        }
    }
    assert(parents_linked(m)) by {
        assert forall|id: u64| #[trigger] m.contains_key(id) && id != ROOT_INO implies m.contains_key(
            m[id].parent,
        ) && has_ino(m[m[id].parent].entries(), id) by {
            assert(t.contains_key(id));
            if id == ino {
                assert(m[newparent].entries().contains(ne));
            } else {
                let p = t[id].parent;
                let x = choose|x: EntryView| #[trigger] t[p].entries().contains(x) && x.ino == id;
                assert(x.name != name || p != parent) by {
                    if p == parent {
                        lemma_find_contains(s, x.name, x.ino);
                    }
                }
                if p == newparent {
                    assert(has_name(t[newparent].entries(), x.name)) by {
                        let i = choose|i: int|
                            0 <= i < t[newparent].entries().len() && t[newparent].entries()[i] == x;
                        assert(t[newparent].entries()[i].name == x.name);
                    }
                    assert(s2.contains(x));
                    assert(m[p].entries().contains(x));
                } else {
                    assert(m[p].entries().contains(x));
                }
            }
        }
    }
    assert(single_names(m)) by {
        assert forall|d: u64, e1: EntryView, e2: EntryView|
            m.contains_key(d) && #[trigger] m[d].entries().contains(e1) && #[trigger] m[d].entries().contains(
                e2,
            ) && e1.ino == e2.ino implies e1 == e2 by {
            if d == newparent && (e1 == ne || e2 == ne) {
            } else {
                assert(t[d].entries().contains(e1));
                assert(t[d].entries().contains(e2));
            }
        }
    }
    let lift = r[newparent] + 1;
    let r2 = Map::<u64, nat>::new(
        |x: u64| true,
        |x: u64|
            if under(t, ino, x) {
                r[x] + lift
            } else {
                r[x]
            },
    );
    assert(ranked(m, r2)) by {
        assert forall|id: u64| #[trigger] m.contains_key(id) && id != ROOT_INO implies r2[m[id].parent]
            < r2[id] by {
            assert(t.contains_key(id));
            if id == ino {
                assert(under(t, ino, ino));
            } else if under(t, ino, id) {
                lemma_under_inside(t, ino, id);
            } else {
                if under(t, ino, t[id].parent) {
                    lemma_under_child(t, ino, id);
                }
            }
        }
    }
}

/// What a rename that is not refused can rely on: the moved entry and the
/// entry it replaces, if any, are in the table, and they are neither each
/// other nor one of the two directories.
pub proof fn lemma_rename_ready(
    t: Map<u64, NodeView>,
    parent: u64,
    name: Seq<char>,
    newparent: u64,
    newname: Seq<char>,
)
    requires
        table_wf(t),
        t.contains_key(parent),
        find(t[parent].entries(), name) is Some,
        t.contains_key(newparent),
        t[newparent].is_dir(),
        !under(t, find(t[parent].entries(), name)->0, newparent),
        find(t[newparent].entries(), newname) matches Some(other) ==> other == find(
            t[parent].entries(),
            name,
        )->0 || t[other].entries().len() == 0,
    ensures
        ({
            let ino = find(t[parent].entries(), name)->0;
            &&& t.contains_key(ino)
            &&& ino != parent
            &&& ino != newparent
            &&& t[parent].is_dir()
            &&& t[parent].wf()
            &&& t[newparent].wf()
            &&& find(t[newparent].entries(), newname) matches Some(other) ==> {
                &&& t.contains_key(other)
                &&& other != newparent
                &&& other != ino ==> other != parent
            }
        }),
{
    let ino = find(t[parent].entries(), name)->0;
    let s = t[parent].entries();
    let sn = t[newparent].entries();
    assert(t[parent].wf());
    assert(t[newparent].wf());
    assert(sorted(s)) by {
        if t[parent].children is None {
            assert(s =~= Seq::<EntryView>::empty());
        }
    }
    lemma_find_contains(s, name, ino);
    assert(s.contains(EntryView { name, ino }));
    assert(nth_parent(t, ino, 0) == ino);
    let r = choose|r: Map<u64, nat>| ranked(t, r);
    if let Some(other) = find(sn, newname) {
        lemma_find_contains(sn, newname, other);
        assert(sn.contains(EntryView { name: newname, ino: other }));
    }
}

/// A rename that is not refused keeps the table a tree.
pub proof fn lemma_renamed_wf(
    t: Map<u64, NodeView>,
    parent: u64,
    name: Seq<char>,
    newparent: u64,
    newname: Seq<char>,
)
    requires
        table_wf(t),
        t.contains_key(parent),
        find(t[parent].entries(), name) is Some,
        t.contains_key(newparent),
        t[newparent].is_dir(),
        !under(t, find(t[parent].entries(), name)->0, newparent),
        find(t[newparent].entries(), newname) matches Some(other) ==> other == find(
            t[parent].entries(),
            name,
        )->0 || t[other].entries().len() == 0,
    ensures
        table_wf(renamed(t, parent, name, newparent, newname)),
{
    let ino = find(t[parent].entries(), name)->0;
    let s = t[parent].entries();
    let sn = t[newparent].entries();
    assert(t[parent].wf());
    assert(t[newparent].wf());
    assert(sorted(s)) by {
        if t[parent].children is None {
            assert(s =~= Seq::<EntryView>::empty());
        }
    }
    lemma_find_contains(s, name, ino);
    match find(sn, newname) {
        None => {
            lemma_moved_wf(t, parent, name, newparent, newname, ino);
        },
        Some(other) => {
            if other != ino {
                let u = unlinked(t, newparent, newname, other);
                lemma_find_contains(sn, newname, other);
                lemma_unlinked_wf(t, newparent, newname, other);
                lemma_without(sn, newname);
                lemma_without_contains(sn, newname);
                assert(u[newparent].entries() == without(sn, newname));
                assert(t.contains_key(ino) && t[ino].parent == parent);
                assert(parent != other) by {
                    if parent == other {
                        assert(s.contains(EntryView { name, ino }));
                    }
                }
                assert(ino != other);
                assert(u.contains_key(parent));
                assert(find(u[parent].entries(), name) == Some(ino)) by {
                    if parent == newparent {
                        assert(name != newname);
                    } else {
                        assert(u[parent] == t[parent]);
                    }
                }
                assert(!under(u, ino, newparent)) by {
                    if under(u, ino, newparent) {
                        let n = choose|n: nat| nth_parent(u, newparent, n) == ino;
                        lemma_chain_in_part(u, t, newparent, n);
                    }
                }
                lemma_moved_wf(u, parent, name, newparent, newname, ino);
            }
        },
    }
}

} // verus!
