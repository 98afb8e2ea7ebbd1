//! The inode table as a mathematical object: a map from ids to nodes that
//! forms one tree under the root, and the steps that keep it one.

use vstd::prelude::*;
use super::inter::directory::{
    find, has_ino, has_name, lemma_find_contains, lemma_put, lemma_put_contains,
    lemma_sorted_names_unique, lemma_without, lemma_without_contains, put, sorted, without,
    EntryView,
};
use super::inter::node::{empty_directory, empty_file, NodeView};

verus! {

/// The id of the root directory.
pub const ROOT_INO: u64 = 1;

/// What the root has in place of a parent. No node has this id.
pub const NO_PARENT: u64 = 0;

/// The state of the filesystem: the nodes by id, and the next id to hand out.
pub struct FsView {
    pub nodes: Map<u64, NodeView>,
    pub next_ino: u64,
}

/// The stored parent of `id`; `NO_PARENT` where the table has no such node.
pub open spec fn parent_of(t: Map<u64, NodeView>, id: u64) -> u64 {
    if t.contains_key(id) {
        t[id].parent
    } else {
        NO_PARENT
    }
}

/// The node reached from `id` by following parents `n` times.
pub open spec fn nth_parent(t: Map<u64, NodeView>, id: u64, n: nat) -> u64
    decreases n,
{
    if n == 0 {
        id
    } else {
        nth_parent(t, parent_of(t, id), (n - 1) as nat)
    }
}

/// `id` is `anc` or lies somewhere below it.
pub open spec fn under(t: Map<u64, NodeView>, anc: u64, id: u64) -> bool {
    exists|n: nat| nth_parent(t, id, n) == anc
}

/// The nodes of the table that are `anc` or lie below it.
pub open spec fn subtree(t: Map<u64, NodeView>, anc: u64) -> Set<u64> {
    Set::new(|id: u64| t.contains_key(id) && under(t, anc, id))
}

/// `r` grows strictly from each parent to its children.
pub open spec fn ranked(t: Map<u64, NodeView>, r: Map<u64, nat>) -> bool {
    forall|id: u64| #[trigger]
        t.contains_key(id) && id != ROOT_INO ==> r[t[id].parent] < r[id]
}

/// Every child that a directory lists is in the table, is not the root, and
/// names that directory as its parent.
pub open spec fn children_linked(t: Map<u64, NodeView>) -> bool {
    forall|d: u64, e: EntryView|
        t.contains_key(d) && #[trigger] t[d].entries().contains(e) ==> {
            &&& t.contains_key(e.ino)
            &&& t[e.ino].parent == d
            &&& e.ino != ROOT_INO
        }
}

/// Every node but the root is listed by the node it names as its parent.
pub open spec fn parents_linked(t: Map<u64, NodeView>) -> bool {
    forall|id: u64| #[trigger]
        t.contains_key(id) && id != ROOT_INO ==> {
            &&& t.contains_key(t[id].parent)
            &&& has_ino(t[t[id].parent].entries(), id)
        }
}

/// No directory lists one id under two names.
pub open spec fn single_names(t: Map<u64, NodeView>) -> bool {
    forall|d: u64, e1: EntryView, e2: EntryView|
        t.contains_key(d) && #[trigger] t[d].entries().contains(e1) && #[trigger] t[d].entries().contains(e2)
            && e1.ino == e2.ino ==> e1 == e2
}

/// The table is one tree: the root is a directory without a parent, every
/// node is well formed, directories and their children point at each other,
/// and following parents never comes back.
pub open spec fn table_wf(t: Map<u64, NodeView>) -> bool {
    &&& t.dom().finite()
    &&& t.contains_key(ROOT_INO)
    &&& t[ROOT_INO].is_dir()
    &&& t[ROOT_INO].parent == NO_PARENT
    &&& !t.contains_key(NO_PARENT)
    &&& forall|id: u64| #[trigger] t.contains_key(id) ==> t[id].wf()
    &&& children_linked(t)
    &&& parents_linked(t)
    &&& single_names(t)
    &&& exists|r: Map<u64, nat>| ranked(t, r)
}

impl FsView {
    /// The table is a tree, and every id in it was handed out before.
    pub open spec fn wf(self) -> bool {
        &&& table_wf(self.nodes)
        &&& forall|id: u64| #[trigger] self.nodes.contains_key(id) ==> id < self.next_ino
    }

    /// The id that `name` maps to under `parent`, if `parent` is a directory
    /// of the table that has such a child.
    pub open spec fn child(self, parent: u64, name: Seq<char>) -> Option<u64> {
        if self.nodes.contains_key(parent) {
            find(self.nodes[parent].entries(), name)
        } else {
            None
        }
    }
}

/// The table `t` with a new, empty root directory under the root's id, in
/// place of whatever `t` held there.
pub open spec fn seeded(t: Map<u64, NodeView>) -> Map<u64, NodeView> {
    t.insert(ROOT_INO, empty_directory(NO_PARENT))
}

/// The table with only a root directory.
pub open spec fn fresh_table() -> Map<u64, NodeView> {
    seeded(Map::<u64, NodeView>::empty())
}

/// `n` is one more than the largest id of `t`.
pub open spec fn one_past_largest(t: Map<u64, NodeView>, n: u64) -> bool {
    &&& n >= 1
    &&& t.contains_key((n - 1) as u64)
    &&& forall|k: u64| #[trigger] t.contains_key(k) ==> k < n
}

/// `node` as a directory that maps `name` to `ino`.
pub open spec fn with_entry(node: NodeView, name: Seq<char>, ino: u64) -> NodeView {
    NodeView { children: Some(put(node.entries(), name, ino)), ..node }
}

/// `node` as a directory that no longer has `name`.
pub open spec fn without_entry(node: NodeView, name: Seq<char>) -> NodeView {
    NodeView { children: Some(without(node.entries(), name)), ..node }
}

/// The table after `node` was stored under the new id `ino` and linked into
/// `parent` as `name`.
pub open spec fn linked(
    t: Map<u64, NodeView>,
    parent: u64,
    name: Seq<char>,
    ino: u64,
    node: NodeView,
) -> Map<u64, NodeView> {
    t.insert(ino, node).insert(parent, with_entry(t[parent], name, ino))
}

/// The table after the child `name` of `parent`, which is `ino`, was dropped
/// from the directory and from the table.
pub open spec fn unlinked(t: Map<u64, NodeView>, parent: u64, name: Seq<char>, ino: u64) -> Map<
    u64,
    NodeView,
> {
    t.remove(ino).insert(parent, without_entry(t[parent], name))
}

/// A table with only the root is a tree.
pub proof fn lemma_fresh_table_wf()
    ensures
        table_wf(fresh_table()),
{
    let t = fresh_table();
    let r = Map::<u64, nat>::empty();
    assert(ranked(t, r));
    assert(t.dom() =~= Set::<u64>::empty().insert(ROOT_INO));
    assert forall|d: u64, e: EntryView|
        t.contains_key(d) && #[trigger] t[d].entries().contains(e) implies false by {
        assert(t[d].entries() =~= Seq::<EntryView>::empty());
    }
}

/// Linking a new, empty node into a directory keeps the table a tree.
pub proof fn lemma_linked_wf(
    t: Map<u64, NodeView>,
    parent: u64,
    name: Seq<char>,
    ino: u64,
    node: NodeView,
)
    requires
        table_wf(t),
        t.contains_key(parent),
        t[parent].is_dir(),
        !has_name(t[parent].entries(), name),
        !t.contains_key(ino),
        ino != NO_PARENT,
        node == empty_directory(parent) || node == empty_file(parent),
    ensures
        table_wf(linked(t, parent, name, ino, node)),
{
    let u = linked(t, parent, name, ino, node);
    let s = t[parent].entries();
    let e = EntryView { name, ino };
    lemma_put(s, name, ino);
    lemma_put_contains(s, name, ino);
    assert(node.entries() =~= Seq::<EntryView>::empty());
    assert(u[parent].entries() == put(s, name, ino));
    assert forall|id: u64| #[trigger] u.contains_key(id) implies u[id].wf() by {
        if id != parent && id != ino {
            assert(t.contains_key(id));
        }
    }
    assert(children_linked(u)) by {
        assert forall|d: u64, x: EntryView|
            u.contains_key(d) && #[trigger] u[d].entries().contains(x) implies u.contains_key(x.ino)
            && u[x.ino].parent == d && x.ino != ROOT_INO by {
            if d == parent {
                if x != e {
                    assert(t[d].entries().contains(x));
                }
            } else if d == ino {
            } else {
                assert(t[d].entries().contains(x));
            }
        }
    }
    assert(parents_linked(u)) by {
        assert forall|id: u64| #[trigger] u.contains_key(id) && id != ROOT_INO implies u.contains_key(
            u[id].parent,
        ) && has_ino(u[u[id].parent].entries(), id) by {
            if id == ino {
                assert(u[parent].entries().contains(e));
            } else {
                assert(t.contains_key(id));
                let p = t[id].parent;
                assert(u[id].parent == p);
                let x = choose|x: EntryView| #[trigger] t[p].entries().contains(x) && x.ino == id;
                if p == parent {
                    assert(u[p].entries().contains(x));
                } else {
                    assert(u[p].entries().contains(x));
                }
            }
        }
    }
    assert(single_names(u)) by {
        assert forall|d: u64, e1: EntryView, e2: EntryView|
            u.contains_key(d) && #[trigger] u[d].entries().contains(e1) && #[trigger] u[d].entries().contains(
                e2,
            ) && e1.ino == e2.ino implies e1 == e2 by {
            if d == parent {
                if e1 != e {
                    assert(t[d].entries().contains(e1));
                }
                if e2 != e {
                    assert(t[d].entries().contains(e2));
                }
            } else if d == ino {
            } else {
                assert(t[d].entries().contains(e1));
                assert(t[d].entries().contains(e2));
            }
        }
    }
    let r = choose|r: Map<u64, nat>| ranked(t, r);
    let r2 = r.insert(ino, r[parent] + 1);
    assert(ranked(u, r2)) by {
        assert forall|id: u64| #[trigger] u.contains_key(id) && id != ROOT_INO implies r2[u[id].parent]
            < r2[id] by {
            if id != ino {
                assert(t.contains_key(id));
            }
        }
    }
}

/// Dropping an entry without children from its directory and from the
/// table keeps the table a tree.
pub proof fn lemma_unlinked_wf(t: Map<u64, NodeView>, parent: u64, name: Seq<char>, ino: u64)
    requires
        table_wf(t),
        t.contains_key(parent),
        find(t[parent].entries(), name) == Some(ino),
        t.contains_key(ino) ==> t[ino].entries().len() == 0,
    ensures
        table_wf(unlinked(t, parent, name, ino)),
        t.contains_key(ino),
        ino != parent,
        ino != ROOT_INO,
{
    let u = unlinked(t, parent, name, ino);
    let s = t[parent].entries();
    let e = EntryView { name, ino };
    assert(t[parent].wf());
    assert(sorted(s));
    lemma_find_contains(s, name, ino);
    assert(s.contains(e));
    lemma_without(s, name);
    lemma_without_contains(s, name);
    assert(u[parent].entries() == without(s, name));
    assert(t[parent].is_dir());
    assert forall|id: u64| #[trigger] u.contains_key(id) implies u[id].wf() by {
        if id != parent {
            assert(t.contains_key(id));
        }
    }
    assert(children_linked(u)) by {
        assert forall|d: u64, x: EntryView|
            u.contains_key(d) && #[trigger] u[d].entries().contains(x) implies u.contains_key(x.ino)
            && u[x.ino].parent == d && x.ino != ROOT_INO by {
            assert(t[d].entries().contains(x));
            if x.ino == ino {
                assert(d == parent);
                assert(x == e);
            }
        }
    }
    assert(parents_linked(u)) by {
        assert forall|id: u64| #[trigger] u.contains_key(id) && id != ROOT_INO implies u.contains_key(
            u[id].parent,
        ) && has_ino(u[u[id].parent].entries(), id) by {
            assert(t.contains_key(id));
            let p = t[id].parent;
            let x = choose|x: EntryView| #[trigger] t[p].entries().contains(x) && x.ino == id;
            assert(p != ino);
            if p == parent {
                assert(x.name != name) by {
                    lemma_find_contains(s, x.name, x.ino);
                }
                assert(u[p].entries().contains(x));
            } else {
                assert(u[p].entries().contains(x));
            }
        }
    }
    assert(single_names(u)) by {
        assert forall|d: u64, e1: EntryView, e2: EntryView|
            u.contains_key(d) && #[trigger] u[d].entries().contains(e1) && #[trigger] u[d].entries().contains(
                e2,
            ) && e1.ino == e2.ino implies e1 == e2 by {
            assert(t[d].entries().contains(e1));
            assert(t[d].entries().contains(e2));
        }
    }
    let r = choose|r: Map<u64, nat>| ranked(t, r);
    assert(ranked(u, r)) by {
        assert forall|id: u64| #[trigger] u.contains_key(id) && id != ROOT_INO implies r[u[id].parent]
            < r[id] by {
            assert(t.contains_key(id));
        }
    }
}

/// `node` as a file that holds `content`.
pub open spec fn with_content(node: NodeView, content: Seq<u8>) -> NodeView {
    NodeView { content: Some(content), size: content.len() as u64, ..node }
}

/// Giving a file new content keeps the table a tree.
pub proof fn lemma_content_wf(t: Map<u64, NodeView>, ino: u64, content: Seq<u8>)
    requires
        table_wf(t),
        t.contains_key(ino),
        t[ino].is_file(),
        content.len() <= u64::MAX,
    ensures
        table_wf(t.insert(ino, with_content(t[ino], content))),
{
    let u = t.insert(ino, with_content(t[ino], content));
    assert(t[ino].wf());
    assert(u.dom() =~= t.dom());
    assert forall|id: u64| u.contains_key(id) implies #[trigger] u[id].entries() == t[id].entries()
        && u[id].parent == t[id].parent && t.contains_key(id) by {}
    assert forall|id: u64| #[trigger] u.contains_key(id) implies u[id].wf() by {
        assert(t.contains_key(id));
    }
    assert(children_linked(u)) by {
        assert forall|d: u64, x: EntryView|
            u.contains_key(d) && #[trigger] u[d].entries().contains(x) implies u.contains_key(x.ino)
            && u[x.ino].parent == d && x.ino != ROOT_INO by {
            assert(t[d].entries().contains(x));
        }
    }
    assert(parents_linked(u)) by {
        assert forall|id: u64| #[trigger] u.contains_key(id) && id != ROOT_INO implies u.contains_key(
            u[id].parent,
        ) && has_ino(u[u[id].parent].entries(), id) by {
            assert(t.contains_key(id));
        }
    }
    assert(single_names(u)) by {
        assert forall|d: u64, e1: EntryView, e2: EntryView|
            u.contains_key(d) && #[trigger] u[d].entries().contains(e1) && #[trigger] u[d].entries().contains(
                e2,
            ) && e1.ino == e2.ino implies e1 == e2 by {
            assert(t[d].entries().contains(e1));
            assert(t[d].entries().contains(e2));
        }
    }
    let r = choose|r: Map<u64, nat>| ranked(t, r);
    assert(ranked(u, r)) by {
        assert forall|id: u64| #[trigger] u.contains_key(id) && id != ROOT_INO implies r[u[id].parent]
            < r[id] by {
            assert(t.contains_key(id));
        }
    }
}

/// A directory has fewer children than the table has nodes.
pub proof fn lemma_children_count(t: Map<u64, NodeView>, d: u64)
    requires
        table_wf(t),
        t.contains_key(d),
    ensures
        t[d].entries().len() < t.dom().len(),
{
    let s = t[d].entries();
    let inos = s.map_values(|e: EntryView| e.ino);
    assert(t[d].wf());
    assert(sorted(s)) by {
        if t[d].children is None {
            assert(s =~= Seq::<EntryView>::empty());
        }
    }
    assert forall|i: int, j: int| 0 <= i < inos.len() && 0 <= j < inos.len() && i != j implies inos[i]
        != inos[j] by {
        assert(s.contains(s[i]));
        assert(s.contains(s[j]));
        if s[i].ino == s[j].ino {
            lemma_sorted_names_unique(s, i, j);
        }
    }
    inos.unique_seq_to_set();
    let rest = t.dom().remove(ROOT_INO);
    assert forall|c: u64| inos.to_set().contains(c) implies rest.contains(c) by {
        let i = choose|i: int| 0 <= i < inos.len() && inos[i] == c;
        assert(s.contains(s[i]));
    }
    vstd::set_lib::lemma_len_subset(inos.to_set(), rest);
    vstd::set::axiom_set_remove_len(t.dom(), ROOT_INO);
}

} // verus!
