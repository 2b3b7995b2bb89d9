//! The catalog of the collections that are open, by name.

use vstd::prelude::*;
use vstd::relations::sorted_by;
use vstd::string::StringExecFns;
use crate::sorting::{sort_strings, string_le, views};

verus! {

/// The collections that are open, each under its name. No two have one
/// name.
pub struct CollectionCatalog<C> {
    names: Vec<String>,
    collections: Vec<C>,
}

impl<C> CollectionCatalog<C> {
    /// The names in the catalog.
    pub closed spec fn names(&self) -> Seq<Seq<char>> {
        views(self.names@)
    }

    /// The invariant: each name has its collection, and no name occurs
    /// twice.
    pub closed spec fn wf(&self) -> bool {
        &&& self.names@.len() == self.collections@.len()
        &&& forall|i: int, j: int|
            0 <= i < j < self.names@.len() ==> (#[trigger] self.names@[i])@
                != (#[trigger] self.names@[j])@
    }

    /// Whether the catalog has a collection under `name`.
    pub closed spec fn contains(&self, name: Seq<char>) -> bool {
        exists|i: int| 0 <= i < self.names@.len() && (#[trigger] self.names@[i])@ == name
    }

    /// The collection under `name`.
    pub closed spec fn collection(&self, name: Seq<char>) -> C {
        self.collections@[choose|i: int|
            0 <= i < self.names@.len() && (#[trigger] self.names@[i])@ == name]
    }

    /// The number of collections.
    pub closed spec fn count(&self) -> nat {
        self.names@.len()
    }

    /// The catalog as a map from names to collections.
    pub open spec fn view(&self) -> Map<Seq<char>, C> {
        Map::new(|name: Seq<char>| self.contains(name), |name: Seq<char>| self.collection(name))
    }

    /// The entry at a position is the entry under its name.
    proof fn lemma_entry(&self, i: int)
        requires
            self.wf(),
            0 <= i < self.names@.len(),
        ensures
            self.contains(self.names@[i]@),
            self.collection(self.names@[i]@) == self.collections@[i],
    {
        let name = self.names@[i]@;
        let c = choose|c: int| 0 <= c < self.names@.len() && (#[trigger] self.names@[c])@ == name;
        assert(c == i) by {
            if c < i {
                assert(self.names@[c]@ != self.names@[i]@);
            } else if i < c {
                assert(self.names@[i]@ != self.names@[c]@);
            }
        }
    }

    /// An empty catalog.
    pub fn new() -> (catalog: Self)
        ensures
            catalog.wf(),
            catalog@ == Map::<Seq<char>, C>::empty(),
    {
        let catalog = Self { names: Vec::new(), collections: Vec::new() };
        proof {
            assert(catalog@ =~= Map::<Seq<char>, C>::empty());
        }
        catalog
    }

    /// The position of `name` among the names.
    fn position(&self, name: &String) -> (r: Option<usize>)
        requires
            self.wf(),
        ensures
            match r {
                Some(i) => i < self.names@.len() && self.names@[i as int]@ == name@,
                None => !self.contains(name@),
            },
    {
        let mut i: usize = 0;
        while i < self.names.len()
            invariant
                i <= self.names@.len(),
                forall|j: int| 0 <= j < i ==> (#[trigger] self.names@[j])@ != name@,
            decreases self.names@.len() - i,
        {
            if self.names[i] == *name {
                return Some(i);
            }
            i += 1;
        }
        None
    }

    /// Puts `collection` into the catalog under `name`, in place of the one
    /// that was there under that name, if any.
    pub fn add_collection(&mut self, name: String, collection: C)
        requires
            old(self).wf(),
        ensures
            final(self).wf(),
            final(self)@ == old(self)@.insert(name@, collection),
    {
        let ghost before = *self;
        match self.position(&name) {
            Some(i) => {
                self.collections.set(i, collection);
                proof {
                    assert forall|n: Seq<char>| self.contains(n) implies #[trigger] self.collection(
                        n,
                    ) == before@.insert(name@, collection)[n] by {
                        let c = choose|c: int|
                            0 <= c < self.names@.len() && (#[trigger] self.names@[c])@ == n;
                        self.lemma_entry(c);
                        before.lemma_entry(c);
                    }
                    assert(self@ =~= before@.insert(name@, collection));
                }
            },
            None => {
                self.names.push(name);
                self.collections.push(collection);
                proof {
                    let last = self.names@.len() - 1;
                    assert forall|i: int, j: int| 0 <= i < j < self.names@.len() implies (
                    #[trigger] self.names@[i])@ != (#[trigger] self.names@[j])@ by {
                        if j == last {
                            assert(self.names@[i] == before.names@[i]);
                        } else {
                            assert(self.names@[i] == before.names@[i]);
                            assert(self.names@[j] == before.names@[j]);
                        }
                    }
                    assert forall|n: Seq<char>| self.contains(n) == before@.insert(
                        name@,
                        collection,
                    ).contains_key(n) by {
                        if self.contains(n) {
                            let c = choose|c: int|
                                0 <= c < self.names@.len() && (#[trigger] self.names@[c])@ == n;
                            if c < last {
                                assert(before.names@[c]@ == n);
                            }
                        }
                        if before.contains(n) {
                            let c = choose|c: int|
                                0 <= c < before.names@.len() && (#[trigger] before.names@[c])@
                                    == n;
                            assert(self.names@[c]@ == n);
                        }
                        if n == name@ {
                            assert(self.names@[last]@ == n);
                        }
                    }
                    assert forall|n: Seq<char>| self.contains(n) implies #[trigger] self.collection(
                        n,
                    ) == before@.insert(name@, collection)[n] by {
                        let c = choose|c: int|
                            0 <= c < self.names@.len() && (#[trigger] self.names@[c])@ == n;
                        self.lemma_entry(c);
                        if c < last {
                            assert(before.names@[c]@ == n);
                            before.lemma_entry(c);
                        }
                    }
                    assert(self@ =~= before@.insert(name@, collection));
                }
            },
        }
    }

    /// The collection under `name`, if there is one.
    pub fn get_collection(&self, name: &str) -> (r: Option<&C>)
        requires
            self.wf(),
        ensures
            match r {
                Some(c) => self@.contains_key(name@) && *c == self@[name@],
                None => !self@.contains_key(name@),
            },
    {
        let key = String::from_str(name);
        match self.position(&key) {
            Some(i) => {
                proof {
                    self.lemma_entry(i as int);
                }
                Some(&self.collections[i])
            },
            None => None,
        }
    }

    /// The names of all collections, in the order of their bytes.
    pub fn get_all_collection_names_sorted(&self) -> (sorted: Vec<String>)
        requires
            self.wf(),
        ensures
            sorted_by(views(sorted@), string_le()),
            views(sorted@).to_multiset() == self.names().to_multiset(),
            forall|name: Seq<char>| views(sorted@).contains(name) <==> self@.contains_key(name),
            views(sorted@).no_duplicates(),
            self@.dom().finite(),
            sorted@.len() == self@.dom().len(),
    {
        broadcast use vstd::seq_lib::group_to_multiset_ensures;

        let mut v: Vec<String> = Vec::new();
        let mut i: usize = 0;
        while i < self.names.len()
            invariant
                i <= self.names@.len(),
                v@.len() == i,
                forall|j: int| 0 <= j < i ==> (#[trigger] v@[j])@ == self.names@[j]@,
            decreases self.names@.len() - i,
        {
            v.push(self.names[i].clone());
            i += 1;
        }
        proof {
            assert(views(v@) =~= views(self.names@));
        }
        sort_strings(&mut v);
        proof {
            assert(views(v@).to_multiset().len() == views(v@).len());
            assert(self.names().to_multiset().len() == self.names().len());
            let names = self.names();
            assert(names.no_duplicates()) by {
                assert forall|i: int, j: int|
                    0 <= i < names.len() && 0 <= j < names.len() && i != j implies names[i]
                    != names[j] by {
                    if i < j {
                        assert(self.names@[i]@ != self.names@[j]@);
                    } else {
                        assert(self.names@[j]@ != self.names@[i]@);
                    }
                }
            }
            names.lemma_multiset_has_no_duplicates();
            views(v@).lemma_multiset_has_no_duplicates_conv();
            assert(self@.dom() =~= names.to_set()) by {
                assert forall|name: Seq<char>| self@.dom().contains(name) == names.to_set().contains(
                    name,
                ) by {
                    if names.contains(name) {
                        let c = choose|c: int| 0 <= c < names.len() && names[c] == name;
                        assert(self.names@[c]@ == name);
                    }
                    if self.contains(name) {
                        let c = choose|c: int|
                            0 <= c < self.names@.len() && (#[trigger] self.names@[c])@ == name;
                        assert(names[c] == name);
                    }
                }
            }
            vstd::seq_lib::seq_to_set_is_finite(names);
            names.unique_seq_to_set();
            assert forall|name: Seq<char>| views(v@).contains(name) <==> self@.contains_key(
                name,
            ) by {
                assert(views(v@).contains(name) <==> views(v@).to_multiset().count(name) > 0);
                assert(self.names().contains(name) <==> self.names().to_multiset().count(name)
                    > 0);
                if self.names().contains(name) {
                    let c = choose|c: int| 0 <= c < self.names().len() && self.names()[c] == name;
                    assert(self.names@[c]@ == name);
                }
                if self.contains(name) {
                    let c = choose|c: int|
                        0 <= c < self.names@.len() && (#[trigger] self.names@[c])@ == name;
                    assert(self.names()[c] == name);
                }
            }
        }
        v
    }

    /// Whether the catalog has a collection under `name`.
    pub fn collection_exists(&self, name: &str) -> (r: bool)
        requires
            self.wf(),
        ensures
            r == self@.contains_key(name@),
    {
        let key = String::from_str(name);
        self.position(&key).is_some()
    }
}

} // verus!
