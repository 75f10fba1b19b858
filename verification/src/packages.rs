//! The resolved packages of a resolution, one per package id.
use vstd::prelude::*;

use crate::dependency::{PackageId, ResolvedModel, ResolvedPackage};
use crate::text::str_eq;

verus! {

/// Resolved packages keyed by their id, kept in the order they were first inserted.
pub struct PackageTable {
    entries: Vec<ResolvedPackage>,
}

/// No two entries share an id.
pub open spec fn distinct_ids(s: Seq<ResolvedModel>) -> bool {
    forall|i: int, j: int| 0 <= i < j < s.len() ==> #[trigger] s[i].id != #[trigger] s[j].id
}

/// Some entry has id `id`.
pub open spec fn has_id(s: Seq<ResolvedModel>, id: (Seq<char>, Seq<char>)) -> bool {
    exists|i: int| 0 <= i < s.len() && #[trigger] s[i].id == id
}

/// The first package named `name`.
pub open spec fn first_named(items: Seq<ResolvedModel>, name: Seq<char>) -> Option<int> {
    if exists|i: int| 0 <= i < items.len() && items[i].id.0 == name {
        Some(
            choose|i: int|
                0 <= i < items.len() && items[i].id.0 == name && forall|j: int|
                    0 <= j < i ==> (#[trigger] items[j]).id.0 != name,
        )
    } else {
        None
    }
}

/// The first package named `name` is at `i` when `i` carries it and nothing before does.
pub proof fn lemma_first_named(items: Seq<ResolvedModel>, name: Seq<char>, i: int)
    requires
        0 <= i < items.len(),
        items[i].id.0 == name,
        forall|j: int| 0 <= j < i ==> (#[trigger] items[j]).id.0 != name,
    ensures
        first_named(items, name) == Some(i),
{
    let k = choose|k: int|
        0 <= k < items.len() && items[k].id.0 == name && forall|j: int|
            0 <= j < k ==> (#[trigger] items[j]).id.0 != name;
    if k < i {
        assert(items[k].id.0 != name);
    } else if i < k {
        assert(items[i].id.0 != name);
    }
}

/// When some package is named `name`, the first one named so is a package of that name.
pub proof fn lemma_first_named_found(items: Seq<ResolvedModel>, name: Seq<char>, i: int)
    requires
        0 <= i < items.len(),
        items[i].id.0 == name,
    ensures
        first_named(items, name) matches Some(k) && 0 <= k < items.len() && items[k].id.0 == name,
    decreases i,
{
    if exists|j: int| 0 <= j < i && items[j].id.0 == name {
        let j = choose|j: int| 0 <= j < i && items[j].id.0 == name;
        lemma_first_named_found(items, name, j);
    } else {
        lemma_first_named(items, name, i);
    }
}

/// `s` with `p` stored: in place of the entry with its id, else added at the end.
pub open spec fn with_package(s: Seq<ResolvedModel>, p: ResolvedModel) -> Seq<ResolvedModel> {
    if has_id(s, p.id) {
        s.update(choose|i: int| 0 <= i < s.len() && s[i].id == p.id, p)
    } else {
        s.push(p)
    }
}

/// With distinct ids, storing `p` replaces the one entry that has its id.
pub proof fn lemma_with_package(s: Seq<ResolvedModel>, p: ResolvedModel, i: int)
    requires
        distinct_ids(s),
        0 <= i < s.len(),
        s[i].id == p.id,
    ensures
        with_package(s, p) == s.update(i, p),
{
    let k = choose|k: int| 0 <= k < s.len() && s[k].id == p.id;
    if k < i {
        assert(s[k].id != s[i].id);
    } else if i < k {
        assert(s[i].id != s[k].id);
    }
}

impl PackageTable {
    #[verifier::type_invariant]
    pub closed spec fn wf(self) -> bool {
        distinct_ids(self.entries@.map_values(|p: ResolvedPackage| p@))
    }

    /// The entries, in insertion order.
    pub closed spec fn items(self) -> Seq<ResolvedModel> {
        self.entries@.map_values(|p: ResolvedPackage| p@)
    }

    /// The ids of the entries, in insertion order.
    pub open spec fn ids(self) -> Seq<(Seq<char>, Seq<char>)> {
        self.items().map_values(|p: ResolvedModel| p.id)
    }

    /// Ids are distinct.
    pub proof fn lemma_distinct(&self)
        requires
            self.wf(),
        ensures
            distinct_ids(self.items()),
    {
    }

    pub fn new() -> (t: PackageTable)
        ensures
            t.items() == Seq::<ResolvedModel>::empty(),
    {
        let t = PackageTable { entries: Vec::new() };
        assert(t.items() =~= Seq::<ResolvedModel>::empty());
        t
    }

    /// Number of packages.
    pub fn len(&self) -> (n: usize)
        ensures
            n == self.items().len(),
            distinct_ids(self.items()),
    {
        proof {
            use_type_invariant(self);
        }
        self.entries.len()
    }

    /// The package at position `i`.
    pub fn get_index(&self, i: usize) -> (p: &ResolvedPackage)
        requires
            i < self.items().len(),
        ensures
            p@ == self.items()[i as int],
    {
        &self.entries[i]
    }

    /// Where the package with this id is.
    pub fn position(&self, id: &PackageId) -> (r: Option<usize>)
        ensures
            match r {
                Some(i) => i < self.items().len() && self.items()[i as int].id == id@,
                None => !has_id(self.items(), id@),
            },
    {
        let mut i: usize = 0;
        while i < self.entries.len()
            invariant
                i <= self.entries@.len(),
                forall|j: int| 0 <= j < i ==> self.items()[j].id != id@,
            decreases self.entries@.len() - i,
        {
            let e = &self.entries[i];
            if str_eq(e.id.name.as_str(), id.name.as_str()) && str_eq(
                e.id.version.as_str(),
                id.version.as_str(),
            ) {
                return Some(i);
            }
            i = i + 1;
        }
        None
    }

    pub fn contains_key(&self, id: &PackageId) -> (b: bool)
        ensures
            b == has_id(self.items(), id@),
    {
        self.position(id).is_some()
    }

    /// The package stored under `id`.
    pub fn get(&self, id: &PackageId) -> (r: Option<&ResolvedPackage>)
        ensures
            match r {
                Some(p) => p@.id == id@ && exists|i: int|
                    0 <= i < self.items().len() && self.items()[i] == p@,
                None => !has_id(self.items(), id@),
            },
    {
        match self.position(id) {
            Some(i) => Some(&self.entries[i]),
            None => None,
        }
    }

    /// Stores `pkg` under its id, replacing the package stored there.
    pub fn insert(&mut self, pkg: ResolvedPackage)
        ensures
            has_id(old(self).items(), pkg@.id) ==> exists|i: int|
                0 <= i < old(self).items().len() && old(self).items()[i].id == pkg@.id
                    && final(self).items() == old(self).items().update(i, pkg@),
            !has_id(old(self).items(), pkg@.id) ==> final(self).items() == old(self).items().push(
                pkg@,
            ),
    {
        proof {
            use_type_invariant(&*self);
        }
        let ghost before = self.items();
        let ghost p = pkg@;
        match self.position(&pkg.id) {
            Some(i) => {
                let mut entries: Vec<ResolvedPackage> = Vec::new();
                std::mem::swap(&mut entries, &mut self.entries);
                entries.set(i, pkg);
                proof {
                    let s = entries@.map_values(|q: ResolvedPackage| q@);
                    assert(s =~= before.update(i as int, p));
                    assert(distinct_ids(s)) by {
                        assert forall|a: int, b: int| 0 <= a < b < s.len() implies #[trigger] s[a].id
                            != #[trigger] s[b].id by {
                            assert(before[a].id == s[a].id);
                            assert(before[b].id == s[b].id);
                        }
                    }
                }
                self.entries = entries;
            },
            None => {
                let mut entries: Vec<ResolvedPackage> = Vec::new();
                std::mem::swap(&mut entries, &mut self.entries);
                entries.push(pkg);
                proof {
                    let s = entries@.map_values(|q: ResolvedPackage| q@);
                    assert(s =~= before.push(p));
                    assert(distinct_ids(s)) by {
                        assert forall|a: int, b: int| 0 <= a < b < s.len() implies #[trigger] s[a].id
                            != #[trigger] s[b].id by {
                            if b == s.len() - 1 {
                                assert(s[a] == before[a]);
                            } else {
                                assert(s[a] == before[a]);
                                assert(s[b] == before[b]);
                            }
                        }
                    }
                }
                self.entries = entries;
            },
        }
    }

    /// The id of the first package named `name`.
    pub fn find_by_name(&self, name: &str) -> (r: Option<&PackageId>)
        ensures
            match r {
                Some(id) => exists|i: int|
                    0 <= i < self.items().len() && self.items()[i].id == id@ && id@.0 == name@
                        && forall|j: int| 0 <= j < i ==> (#[trigger] self.items()[j]).id.0 != name@,
                None => forall|i: int|
                    0 <= i < self.items().len() ==> (#[trigger] self.items()[i]).id.0 != name@,
            },
    {
        let mut i: usize = 0;
        while i < self.entries.len()
            invariant
                i <= self.entries@.len(),
                forall|j: int| 0 <= j < i ==> (#[trigger] self.items()[j]).id.0 != name@,
            decreases self.entries@.len() - i,
        {
            if str_eq(self.entries[i].id.name.as_str(), name) {
                assert(self.items()[i as int] == self.entries@[i as int]@);
                return Some(&self.entries[i].id);
            }
            i = i + 1;
        }
        None
    }
}

} // verus!
