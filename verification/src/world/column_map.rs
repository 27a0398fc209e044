//! A map from columns to values, listed in the order in which columns were added.

use crate::world::heights::{column_key, column_keys_differ, spec_column_key};
use std::collections::HashMap;
use vstd::prelude::*;
use vstd::std_specs::hash::group_hash_axioms;

verus! {

broadcast use group_hash_axioms;

/// One column and its value.
pub struct Entry<V> {
    pub x: i64,
    pub z: i64,
    pub value: V,
}

/// A map from columns to values.
pub struct ColumnMap<V> {
    entries: Vec<Entry<V>>,
    places: HashMap<i128, usize>,
}

/// The key of a column as it is stored.
spec fn key(x: i64, z: i64) -> i128 {
    spec_column_key(x as int, z as int) as i128
}

impl<V> ColumnMap<V> {
    /// The columns and values, in the order in which the columns were added.
    pub closed spec fn list(&self) -> Seq<Entry<V>> {
        self.entries@
    }

    /// Whether every column is listed once, and found where it is listed.
    pub closed spec fn wf(&self) -> bool {
        &&& forall|x: i64, z: i64|
            #![trigger self.places@.contains_key(key(x, z))]
            self.places@.contains_key(key(x, z)) ==> {
                let i = self.places@[key(x, z)];
                &&& 0 <= i < self.entries@.len()
                &&& self.entries@[i as int].x == x
                &&& self.entries@[i as int].z == z
            }
        &&& forall|i: int|
            0 <= i < self.entries@.len() ==> {
                let e = #[trigger] self.entries@[i];
                &&& self.places@.contains_key(key(e.x, e.z))
                &&& self.places@[key(e.x, e.z)] == i
            }
    }

    /// Where a column is listed; only meaningful for columns that are.
    pub closed spec fn place(&self, x: i64, z: i64) -> int {
        self.places@[key(x, z)] as int
    }

    /// Whether a column has a value.
    pub closed spec fn has(&self, x: i64, z: i64) -> bool {
        self.places@.contains_key(key(x, z))
    }

    /// The value of a column.
    pub open spec fn at(&self, x: i64, z: i64) -> V {
        self.list()[self.place(x, z)].value
    }

    /// Where the value of a column is listed, and that the list holds each column
    /// once.
    pub proof fn lemma_listed(&self)
        requires
            self.wf(),
        ensures
            forall|x: i64, z: i64|
                #![trigger self.has(x, z)]
                self.has(x, z) ==> {
                    &&& 0 <= self.place(x, z) < self.list().len()
                    &&& self.list()[self.place(x, z)].x == x
                    &&& self.list()[self.place(x, z)].z == z
                },
            forall|i: int|
                0 <= i < self.list().len() ==> {
                    let e = #[trigger] self.list()[i];
                    self.has(e.x, e.z) && self.place(e.x, e.z) == i
                },
    {
    }

    /// The columns that have a value.
    pub open spec fn columns(&self) -> Set<(i64, i64)> {
        Set::new(|p: (i64, i64)| self.has(p.0, p.1))
    }

    /// The list is as long as there are columns with a value.
    pub proof fn lemma_count(&self)
        requires
            self.wf(),
        ensures
            self.columns().finite(),
            self.columns().len() == self.list().len(),
    {
        self.lemma_listed();
        let listed = Seq::new(
            self.list().len(),
            |i: int| (self.list()[i].x, self.list()[i].z),
        );
        assert(listed.no_duplicates()) by {
            assert forall|i: int, j: int|
                0 <= i < listed.len() && 0 <= j < listed.len() && i != j implies listed[i]
                != listed[j] by {
                let a = self.list()[i];
                let b = self.list()[j];
                assert(self.place(a.x, a.z) == i && self.place(b.x, b.z) == j);
            }
        }
        listed.unique_seq_to_set();
        assert(listed.to_set() =~= self.columns()) by {
            assert forall|p: (i64, i64)| listed.to_set().contains(p) == self.columns().contains(
                p,
            ) by {
                if listed.contains(p) {
                    let i = choose|i: int| 0 <= i < listed.len() && listed[i] == p;
                    assert(self.has(self.list()[i].x, self.list()[i].z));
                }
                if self.has(p.0, p.1) {
                    assert(listed[self.place(p.0, p.1)] == p);
                }
            }
        }
    }

    /// A map without columns.
    pub fn new() -> (r: ColumnMap<V>)
        ensures
            r.wf(),
            r.list().len() == 0,
            forall|x: i64, z: i64| !(#[trigger] r.has(x, z)),
    {
        ColumnMap { entries: Vec::new(), places: HashMap::new() }
    }

    /// The number of columns.
    pub fn len(&self) -> (r: usize)
        ensures
            r == self.list().len(),
    {
        self.entries.len()
    }

    /// Where a column is listed.
    pub fn find(&self, x: i64, z: i64) -> (r: Option<usize>)
        requires
            self.wf(),
        ensures
            r is Some <==> self.has(x, z),
            r is Some ==> {
                &&& r->0 < self.list().len()
                &&& r->0 == self.place(x, z)
                &&& self.list()[r->0 as int].x == x
                &&& self.list()[r->0 as int].z == z
            },
    {
        let place = self.places.get(&column_key(x, z));
        assert(place is Some == self.places@.contains_key(key(x, z)));
        match place {
            Some(i) => Some(*i),
            None => None,
        }
    }

    /// The entry at a place.
    pub fn entry(&self, i: usize) -> (r: &Entry<V>)
        requires
            i < self.list().len(),
        ensures
            *r == self.list()[i as int],
    {
        &self.entries[i]
    }

    /// The value of a column.
    pub fn get(&self, x: i64, z: i64) -> (r: Option<&V>)
        requires
            self.wf(),
        ensures
            r is Some <==> self.has(x, z),
            r is Some ==> *(r->0) == self.at(x, z),
    {
        match self.find(x, z) {
            Some(i) => Some(&self.entries[i].value),
            None => None,
        }
    }

    /// Gives a column a value.
    pub fn insert(&mut self, x: i64, z: i64, value: V)
        requires
            old(self).wf(),
        ensures
            final(self).wf(),
            final(self).has(x, z),
            final(self).at(x, z) == value,
            forall|a: i64, b: i64|
                #![trigger final(self).has(a, b)]
                final(self).has(a, b) == (old(self).has(a, b) || (a == x && b == z)),
            forall|a: i64, b: i64|
                #![trigger final(self).at(a, b)]
                old(self).has(a, b) && !(a == x && b == z) ==> final(self).at(a, b) == old(
                    self,
                ).at(a, b),
            old(self).has(x, z) ==> final(self).list().len() == old(self).list().len(),
            !old(self).has(x, z) ==> final(self).list().len() == old(self).list().len() + 1,
    {
        match self.find(x, z) {
            Some(i) => {
                self.entries.set(i, Entry { x, z, value });
            },
            None => {
                let i: usize = self.entries.len();
                self.entries.push(Entry { x, z, value });
                self.places.insert(column_key(x, z), i);
                proof {
                    assert forall|a: i64, b: i64| key(a, b) == key(x, z) implies a == x && b
                        == z by {
                        column_keys_differ(a, b, x, z);
                    }
                    assert forall|j: int| 0 <= j < self.entries@.len() implies ({
                        let e = #[trigger] self.entries@[j];
                        &&& self.places@.contains_key(key(e.x, e.z))
                        &&& self.places@[key(e.x, e.z)] == j
                    }) by {
                        if j < i {
                            assert(self.entries@[j] == old(self).entries@[j]);
                            assert(old(self).places@.contains_key(
                                key(self.entries@[j].x, self.entries@[j].z),
                            ));
                        }
                    }
                }
            },
        }
    }

    /// Replaces the value at a place.
    pub fn replace(&mut self, i: usize, value: V) -> (r: V)
        requires
            old(self).wf(),
            i < old(self).list().len(),
        ensures
            final(self).wf(),
            r == old(self).list()[i as int].value,
            final(self).list().len() == old(self).list().len(),
            forall|a: i64, b: i64| #[trigger] final(self).has(a, b) == old(self).has(a, b),
            forall|a: i64, b: i64| #[trigger] final(self).place(a, b) == old(self).place(a, b),
            forall|j: int|
                0 <= j < old(self).list().len() ==> {
                    &&& (#[trigger] final(self).list()[j]).x == old(self).list()[j].x
                    &&& final(self).list()[j].z == old(self).list()[j].z
                    &&& final(self).list()[j].value == if j == i {
                        value
                    } else {
                        old(self).list()[j].value
                    }
                },
    {
        let mut slot = value;
        let ghost given = slot;
        let ghost before = self.entries@;
        std::mem::swap(&mut self.entries[i].value, &mut slot);
        assert(self.entries@ =~= before.update(
            i as int,
            Entry { x: before[i as int].x, z: before[i as int].z, value: given },
        ));
        slot
    }

    /// Forgets all columns.
    pub fn clear(&mut self)
        ensures
            final(self).wf(),
            final(self).list().len() == 0,
            forall|x: i64, z: i64| !(#[trigger] final(self).has(x, z)),
    {
        self.entries.clear();
        self.places.clear();
    }

    /// Forgets the columns outside a rectangle.
    pub fn retain_within(&mut self, min_x: i64, max_x: i64, min_z: i64, max_z: i64)
        requires
            old(self).wf(),
        ensures
            final(self).wf(),
            forall|x: i64, z: i64|
                #![trigger final(self).has(x, z)]
                final(self).has(x, z) == (old(self).has(x, z) && min_x <= x <= max_x && min_z <= z
                    <= max_z),
            forall|x: i64, z: i64|
                #![trigger final(self).at(x, z)]
                final(self).has(x, z) ==> final(self).at(x, z) == old(self).at(x, z),
    {
        let ghost all = self.entries@;
        let ghost before = *self;
        let mut kept: ColumnMap<V> = ColumnMap::new();
        let ghost mut rest: int = all.len() as int;
        while self.entries.len() > 0
            invariant
                before.wf(),
                before.entries@ == all,
                kept.wf(),
                rest == self.entries@.len(),
                0 <= rest <= all.len(),
                self.entries@ == all.take(rest),
                forall|x: i64, z: i64|
                    #![trigger kept.has(x, z)]
                    kept.has(x, z) == (before.has(x, z) && before.place(x, z) >= rest && min_x
                        <= x <= max_x && min_z <= z <= max_z),
                forall|x: i64, z: i64|
                    #![trigger kept.at(x, z)]
                    kept.has(x, z) ==> kept.at(x, z) == before.at(x, z),
            decreases self.entries.len(),
        {
            let ghost had = kept;
            match self.entries.pop() {
                Some(e) => {
                    proof {
                        rest = rest - 1;
                        assert(e == all[rest]);
                        assert(before.place(e.x, e.z) == rest);
                        assert(self.entries@ =~= all.take(rest));
                    }
                    if min_x <= e.x && e.x <= max_x && min_z <= e.z && e.z <= max_z {
                        kept.insert(e.x, e.z, e.value);
                    }
                    proof {
                        assert forall|x: i64, z: i64|
                            #![trigger kept.has(x, z)]
                            kept.has(x, z) == (before.has(x, z) && before.place(x, z) >= rest
                                && min_x <= x <= max_x && min_z <= z <= max_z) by {
                            assert(had.has(x, z) == (before.has(x, z) && before.place(x, z)
                                >= rest + 1 && min_x <= x <= max_x && min_z <= z <= max_z));
                            if before.has(x, z) && before.place(x, z) == rest {
                                assert(all[rest].x == x && all[rest].z == z);
                            }
                        }
                    }
                },
                None => {},
            }
        }
        self.entries = kept.entries;
        self.places = kept.places;
    }
}

} // verus!
