//! A directory's children: entries kept in the order of their names, each
//! name at most once.

use vstd::prelude::*;
use vstd::string::*;
use super::name::{
    compare_names, lemma_lex_lt_asymmetric, lemma_lex_lt_irreflexive, lemma_lex_lt_total,
    lemma_lex_lt_transitive, lemma_name_key_injective, name_key, name_lt, NameOrder,
};

verus! {

/// One child of a directory: its name and the id it maps to.
pub struct DirEntry {
    pub name: String,
    pub ino: u64,
}

/// What a `DirEntry` stands for.
pub struct EntryView {
    pub name: Seq<char>,
    pub ino: u64,
}

impl View for DirEntry {
    type V = EntryView;

    open spec fn view(&self) -> EntryView {
        EntryView { name: self.name@, ino: self.ino }
    }
}

/// The entries stand in strictly ascending order of their names.
pub open spec fn sorted(s: Seq<EntryView>) -> bool {
    forall|i: int, j: int| 0 <= i < j < s.len() ==> name_lt(#[trigger] s[i].name, #[trigger] s[j].name)
}

/// Some entry of `s` carries `name`.
pub open spec fn has_name(s: Seq<EntryView>, name: Seq<char>) -> bool {
    exists|i: int| 0 <= i < s.len() && #[trigger] s[i].name == name
}

/// Where `name` stands in `s`, if it does.
pub open spec fn position(s: Seq<EntryView>, name: Seq<char>) -> int {
    choose|i: int| 0 <= i < s.len() && #[trigger] s[i].name == name
}

/// The id that `name` maps to.
pub open spec fn find(s: Seq<EntryView>, name: Seq<char>) -> Option<u64> {
    if has_name(s, name) {
        Some(s[position(s, name)].ino)
    } else {
        None
    }
}

/// Some entry of `s` maps to `ino`.
pub open spec fn has_ino(s: Seq<EntryView>, ino: u64) -> bool {
    exists|e: EntryView| #[trigger] s.contains(e) && e.ino == ino
}

/// How many entries of `s` have a name below `name`.
pub open spec fn rank(s: Seq<EntryView>, name: Seq<char>) -> int
    decreases s.len(),
{
    if s.len() == 0 {
        0
    } else {
        rank(s.drop_last(), name) + if name_lt(s.last().name, name) {
            1int
        } else {
            0int
        }
    }
}

/// `s` with `name` mapped to `ino`: the entry replaces the one of that name,
/// or is put where the order of names wants it.
pub open spec fn put(s: Seq<EntryView>, name: Seq<char>, ino: u64) -> Seq<EntryView> {
    if has_name(s, name) {
        s.update(position(s, name), EntryView { name, ino })
    } else {
        s.insert(rank(s, name), EntryView { name, ino })
    }
}

/// `s` without the entry of `name`.
pub open spec fn without(s: Seq<EntryView>, name: Seq<char>) -> Seq<EntryView> {
    if has_name(s, name) {
        s.remove(position(s, name))
    } else {
        s
    }
}

/// In a sorted listing a name stands at one place only.
pub proof fn lemma_sorted_names_unique(s: Seq<EntryView>, i: int, j: int)
    requires
        sorted(s),
        0 <= i < s.len(),
        0 <= j < s.len(),
        s[i].name == s[j].name,
    ensures
        i == j,
{
    lemma_lex_lt_irreflexive(name_key(s[i].name));
    if i < j {
        assert(name_lt(s[i].name, s[j].name));
    } else if j < i {
        assert(name_lt(s[j].name, s[i].name));
    }
}

/// Where a name stands is where `position` says.
pub proof fn lemma_position(s: Seq<EntryView>, k: int)
    requires
        sorted(s),
        0 <= k < s.len(),
    ensures
        has_name(s, s[k].name),
        position(s, s[k].name) == k,
        find(s, s[k].name) == Some(s[k].ino),
{
    let p = position(s, s[k].name);
    lemma_sorted_names_unique(s, p, k);
}

/// The rank of a name is the place that splits a sorted listing into the
/// names below it and the rest.
pub proof fn lemma_rank_is_split(s: Seq<EntryView>, name: Seq<char>, k: int)
    requires
        sorted(s),
        0 <= k <= s.len(),
        forall|i: int| 0 <= i < k ==> name_lt(#[trigger] s[i].name, name),
        forall|i: int| k <= i < s.len() ==> !name_lt(#[trigger] s[i].name, name),
    ensures
        rank(s, name) == k,
    decreases s.len(),
{
    if s.len() > 0 {
        let t = s.drop_last();
        assert(forall|i: int| 0 <= i < t.len() ==> t[i] == s[i]);
        if k == s.len() {
            assert(name_lt(s[k - 1].name, name));
            lemma_rank_is_split(t, name, k - 1);
        } else {
            assert(!name_lt(s[s.len() - 1].name, name));
            lemma_rank_is_split(t, name, k);
        }
    }
}

/// In a sorted listing the names before the rank are below `name`, and those
/// from the rank on are not.
pub proof fn lemma_rank_splits(s: Seq<EntryView>, name: Seq<char>)
    requires
        sorted(s),
    ensures
        0 <= rank(s, name) <= s.len(),
        forall|i: int| 0 <= i < rank(s, name) ==> name_lt(#[trigger] s[i].name, name),
        forall|i: int| rank(s, name) <= i < s.len() ==> !name_lt(#[trigger] s[i].name, name),
    decreases s.len(),
{
    if s.len() > 0 {
        let t = s.drop_last();
        let last = s.len() - 1;
        assert(forall|i: int| 0 <= i < t.len() ==> t[i] == s[i]);
        lemma_rank_splits(t, name);
        if name_lt(s.last().name, name) {
            assert forall|i: int| 0 <= i < last implies name_lt(#[trigger] s[i].name, name) by {
                assert(name_lt(s[i].name, s[last].name));
                lemma_lex_lt_transitive(name_key(s[i].name), name_key(s[last].name), name_key(name));
            }
            lemma_rank_is_split(t, name, t.len() as int);
        }
    }
}

/// Mapping a name keeps the listing sorted, and says what it holds afterwards.
pub proof fn lemma_put(s: Seq<EntryView>, name: Seq<char>, ino: u64)
    requires
        sorted(s),
    ensures
        sorted(put(s, name, ino)),
        find(put(s, name, ino), name) == Some(ino),
        forall|other: Seq<char>| other != name ==> find(put(s, name, ino), other) == find(s, other),
        forall|other: Seq<char>| other != name ==> (has_name(put(s, name, ino), other) <==> has_name(s, other)),
        has_name(put(s, name, ino), name),
        put(s, name, ino).len() == if has_name(s, name) { s.len() } else { s.len() + 1 },
{
    let e = EntryView { name, ino };
    let t = put(s, name, ino);
    if has_name(s, name) {
        let p = position(s, name);
        assert(forall|i: int| 0 <= i < s.len() ==> #[trigger] t[i].name == s[i].name);
        assert(sorted(t)) by {
            assert forall|i: int, j: int| 0 <= i < j < t.len() implies name_lt(
                #[trigger] t[i].name,
                #[trigger] t[j].name,
            ) by {
                assert(name_lt(s[i].name, s[j].name));
            }
        }
        assert(t[p].name == name);
        lemma_position(t, p);
        assert forall|other: Seq<char>| other != name implies find(t, other) == find(s, other)
            && (has_name(t, other) <==> has_name(s, other)) by {
            if has_name(s, other) {
                let q = position(s, other);
                assert(t[q].name == other);
                lemma_position(t, q);
                assert(q != p);
            }
            if has_name(t, other) {
                let q = position(t, other);
                assert(s[q].name == other);
                lemma_position(s, q);
            }
        }
    } else {
        lemma_rank_splits(s, name);
        let k = rank(s, name);
        assert forall|i: int| k <= i < s.len() implies name_lt(name, #[trigger] s[i].name) by {
            lemma_lex_lt_total(name_key(name), name_key(s[i].name));
            if name_key(name) == name_key(s[i].name) {
                lemma_name_key_injective(name, s[i].name);
            }
        }
        assert(sorted(t)) by {
            assert forall|i: int, j: int| 0 <= i < j < t.len() implies name_lt(
                #[trigger] t[i].name,
                #[trigger] t[j].name,
            ) by {
                if j < k {
                    assert(name_lt(s[i].name, s[j].name));
                } else if j == k {
                    assert(name_lt(s[i].name, name));
                } else if i < k {
                    assert(name_lt(s[i].name, s[j - 1].name));
                } else if i == k {
                    assert(name_lt(name, s[j - 1].name));
                } else {
                    assert(name_lt(s[i - 1].name, s[j - 1].name));
                }
            }
        }
        assert(t[k].name == name);
        lemma_position(t, k);
        assert forall|other: Seq<char>| other != name implies find(t, other) == find(s, other)
            && (has_name(t, other) <==> has_name(s, other)) by {
            if has_name(s, other) {
                let q = position(s, other);
                let q2 = if q < k { q } else { q + 1 };
                assert(t[q2] == s[q]);
                lemma_position(t, q2);
            }
            if has_name(t, other) {
                let q = position(t, other);
                let q2 = if q < k { q } else { q - 1 };
                assert(s[q2] == t[q]);
                lemma_position(s, q2);
            }
        }
    }
}

/// Dropping a name keeps the listing sorted, and says what it holds afterwards.
pub proof fn lemma_without(s: Seq<EntryView>, name: Seq<char>)
    requires
        sorted(s),
    ensures
        sorted(without(s, name)),
        find(without(s, name), name) is None,
        !has_name(without(s, name), name),
        forall|other: Seq<char>| other != name ==> find(without(s, name), other) == find(s, other),
        forall|other: Seq<char>| other != name ==> (has_name(without(s, name), other) <==> has_name(s, other)),
        without(s, name).len() == if has_name(s, name) { s.len() - 1 } else { s.len() as int },
{
    let t = without(s, name);
    if has_name(s, name) {
        let p = position(s, name);
        assert(sorted(t)) by {
            assert forall|i: int, j: int| 0 <= i < j < t.len() implies name_lt(
                #[trigger] t[i].name,
                #[trigger] t[j].name,
            ) by {
                let i2 = if i < p { i } else { i + 1 };
                let j2 = if j < p { j } else { j + 1 };
                assert(name_lt(s[i2].name, s[j2].name));
            }
        }
        if has_name(t, name) {
            let q = position(t, name);
            let q2 = if q < p { q } else { q + 1 };
            assert(s[q2] == t[q]);
            lemma_sorted_names_unique(s, q2, p);
        }
        assert forall|other: Seq<char>| other != name implies find(t, other) == find(s, other)
            && (has_name(t, other) <==> has_name(s, other)) by {
            if has_name(s, other) {
                let q = position(s, other);
                let q2 = if q < p { q } else { q - 1 };
                assert(t[q2] == s[q]);
                lemma_position(t, q2);
            }
            if has_name(t, other) {
                let q = position(t, other);
                let q2 = if q < p { q } else { q + 1 };
                assert(s[q2] == t[q]);
                lemma_position(s, q2);
            }
        }
    }
}

/// A sorted listing maps `name` to `ino` exactly if it holds that entry.
pub proof fn lemma_find_contains(s: Seq<EntryView>, name: Seq<char>, ino: u64)
    requires
        sorted(s),
    ensures
        find(s, name) == Some(ino) <==> s.contains(EntryView { name, ino }),
{
    let e = EntryView { name, ino };
    if s.contains(e) {
        let i = choose|i: int| 0 <= i < s.len() && s[i] == e;
        lemma_position(s, i);
    }
    if find(s, name) == Some(ino) {
        let p = position(s, name);
        assert(s[p] == e);
    }
}

/// What a listing holds after a name was mapped.
pub proof fn lemma_put_contains(s: Seq<EntryView>, name: Seq<char>, ino: u64)
    requires
        sorted(s),
    ensures
        forall|x: EntryView| #[trigger]
            put(s, name, ino).contains(x) <==> (x == (EntryView { name, ino }) || (s.contains(x)
                && x.name != name)),
{
    let e = EntryView { name, ino };
    let t = put(s, name, ino);
    lemma_put(s, name, ino);
    assert forall|x: EntryView| #[trigger] t.contains(x) <==> (x == e || (s.contains(x) && x.name != name)) by {
        lemma_find_contains(t, x.name, x.ino);
        lemma_find_contains(s, x.name, x.ino);
    }
}

/// What a listing holds after a name was dropped.
pub proof fn lemma_without_contains(s: Seq<EntryView>, name: Seq<char>)
    requires
        sorted(s),
    ensures
        forall|x: EntryView| #[trigger]
            without(s, name).contains(x) <==> (s.contains(x) && x.name != name),
{
    let t = without(s, name);
    lemma_without(s, name);
    assert forall|x: EntryView| #[trigger] t.contains(x) <==> (s.contains(x) && x.name != name) by {
        lemma_find_contains(t, x.name, x.ino);
        lemma_find_contains(s, x.name, x.ino);
    }
}

/// The children of one directory, as the inode table holds them.
pub struct Directory {
    entries: Vec<DirEntry>,
}

impl View for Directory {
    type V = Seq<EntryView>;

    closed spec fn view(&self) -> Seq<EntryView> {
        self.entries@.map_values(|e: DirEntry| e@)
    }
}

impl Directory {
    /// The entries are in the order of their names, so no name occurs twice.
    pub open spec fn wf(&self) -> bool {
        sorted(self@)
    }

    /// A directory without children.
    pub fn new() -> (d: Directory)
        ensures
            d@ == Seq::<EntryView>::empty(),
            d.wf(),
    {
        let d = Directory { entries: Vec::new() };
        assert(d@ =~= Seq::<EntryView>::empty());
        d
    }

    /// Number of children.
    pub fn len(&self) -> (n: usize)
        ensures
            n == self@.len(),
    {
        self.entries.len()
    }

    /// The child at place `i` of the listing.
    pub fn entry(&self, i: usize) -> (e: &DirEntry)
        requires
            i < self@.len(),
        ensures
            e@ == self@[i as int],
    {
        &self.entries[i]
    }

    /// The place where `name` stands or would have to stand, and whether it
    /// stands there.
    fn search(&self, name: &str) -> (r: (usize, bool))
        requires
            self.wf(),
        ensures
            r.0 == rank(self@, name@),
            r.0 <= self@.len(),
            self@.len() == self.entries@.len(),
            r.1 == has_name(self@, name@),
            r.1 ==> r.0 < self@.len() && position(self@, name@) == r.0,
    {
        let mut lo: usize = 0;
        let mut hi: usize = self.entries.len();
        let mut found = false;
        while lo < hi
            invariant
                self.wf(),
                0 <= lo <= hi <= self@.len(),
                self@.len() == self.entries@.len(),
                forall|i: int| 0 <= i < lo ==> name_lt(#[trigger] self@[i].name, name@),
                forall|i: int| hi <= i < self@.len() ==> !name_lt(#[trigger] self@[i].name, name@),
                found ==> lo == hi && hi < self@.len() && self@[hi as int].name == name@,
                !found ==> forall|i: int| hi <= i < self@.len() ==> name_lt(name@, #[trigger] self@[i].name),
            decreases hi - lo,
        {
            let mid = lo + (hi - lo) / 2;
            assert(self@[mid as int] == self.entries@[mid as int]@);
            match compare_names(self.entries[mid].name.as_str(), name) {
                NameOrder::Before => {
                    proof {
                        assert forall|i: int| 0 <= i < mid + 1 implies name_lt(
                            #[trigger] self@[i].name,
                            name@,
                        ) by {
                            if i < mid {
                                assert(name_lt(self@[i].name, self@[mid as int].name));
                                lemma_lex_lt_transitive(
                                    name_key(self@[i].name),
                                    name_key(self@[mid as int].name),
                                    name_key(name@),
                                );
                            }
                        }
                    }
                    lo = mid + 1;
                },
                NameOrder::Same => {
                    proof {
                        lemma_lex_lt_irreflexive(name_key(name@));
                        assert forall|i: int| 0 <= i < mid implies name_lt(
                            #[trigger] self@[i].name,
                            name@,
                        ) by {
                            assert(name_lt(self@[i].name, self@[mid as int].name));
                        }
                        assert forall|i: int| mid <= i < self@.len() implies !name_lt(
                            #[trigger] self@[i].name,
                            name@,
                        ) by {
                            if mid < i {
                                assert(name_lt(self@[mid as int].name, self@[i].name));
                                lemma_lex_lt_asymmetric(name_key(name@), name_key(self@[i].name));
                            }
                        }
                    }
                    found = true;
                    lo = mid;
                    hi = mid;
                },
                NameOrder::After => {
                    proof {
                        assert forall|i: int| mid <= i < self@.len() implies name_lt(
                            name@,
                            #[trigger] self@[i].name,
                        ) by {
                            if mid < i {
                                assert(name_lt(self@[mid as int].name, self@[i].name));
                                lemma_lex_lt_transitive(
                                    name_key(name@),
                                    name_key(self@[mid as int].name),
                                    name_key(self@[i].name),
                                );
                            }
                        }
                        assert forall|i: int| mid <= i < self@.len() implies !name_lt(
                            #[trigger] self@[i].name,
                            name@,
                        ) by {
                            lemma_lex_lt_asymmetric(name_key(name@), name_key(self@[i].name));
                        }
                    }
                    hi = mid;
                },
            }
        }
        proof {
            lemma_rank_is_split(self@, name@, lo as int);
            if found {
                lemma_position(self@, lo as int);
            } else {
                if has_name(self@, name@) {
                    let p = position(self@, name@);
                    lemma_lex_lt_irreflexive(name_key(name@));
                }
            }
        }
        (lo, found)
    }

    /// The id that `name` maps to, if it is a child.
    pub fn get(&self, name: &str) -> (r: Option<u64>)
        requires
            self.wf(),
        ensures
            r == find(self@, name@),
    {
        let (k, found) = self.search(name);
        if found {
            assert(self@[k as int] == self.entries@[k as int]@);
            Some(self.entries[k].ino)
        } else {
            None
        }
    }

    /// Whether `name` is a child.
    pub fn contains(&self, name: &str) -> (r: bool)
        requires
            self.wf(),
        ensures
            r == has_name(self@, name@),
    {
        let (_k, found) = self.search(name);
        found
    }

    /// Maps `name` to `ino`, and returns the id it mapped to before.
    pub fn insert(&mut self, name: String, ino: u64) -> (r: Option<u64>)
        requires
            old(self).wf(),
        ensures
            final(self).wf(),
            final(self)@ == put(old(self)@, name@, ino),
            r == find(old(self)@, name@),
    {
        let (k, found) = self.search(name.as_str());
        proof {
            lemma_put(self@, name@, ino);
        }
        if found {
            assert(self@[k as int] == self.entries@[k as int]@);
            let before = self.entries[k].ino;
            self.entries.remove(k);
            self.entries.insert(k, DirEntry { name, ino });
            assert(self@ =~= put(old(self)@, name@, ino));
            Some(before)
        } else {
            let ghost was = self.entries@;
            self.entries.insert(k, DirEntry { name, ino });
            assert(self.entries@ == was.insert(k as int, DirEntry { name, ino }));
            assert(self@ =~= put(old(self)@, name@, ino));
            None
        }
    }

    /// Drops `name`, and returns the id it mapped to.
    pub fn remove(&mut self, name: &str) -> (r: Option<u64>)
        requires
            old(self).wf(),
        ensures
            final(self).wf(),
            final(self)@ == without(old(self)@, name@),
            r == find(old(self)@, name@),
    {
        let (k, found) = self.search(name);
        proof {
            lemma_without(self@, name@);
        }
        if found {
            let e = self.entries.remove(k);
            assert(e@ == old(self)@[k as int]);
            assert(self@ =~= without(old(self)@, name@));
            Some(e.ino)
        } else {
            None
        }
    }
}

} // verus!
