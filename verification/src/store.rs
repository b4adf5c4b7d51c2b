//! The metadata catalogue consumed by the session handlers: a flat table of
//! unique file names, each mapped to one value (a storage path, or file
//! content when the table models the storage directory itself).  The
//! persistent store behind it only has to honour these contracts; the
//! handlers never inspect its schema.

use vstd::prelude::*;

use crate::text::{bytes_eq, copy_bytes};

verus! {

/// A metadata persistence failure.
pub enum StoreError {
    /// The named entry does not exist.
    NotFound,
}

impl StoreError {
    /// The diagnostic text surfaced to the peer, as ASCII bytes of
    /// "no such file".
    pub fn text(&self) -> (r: Vec<u8>)
        ensures
            r@ == spec_not_found_text(),
    {
        let mut v: Vec<u8> = Vec::new();
        v.push(110);
        v.push(111);
        v.push(32);
        v.push(115);
        v.push(117);
        v.push(99);
        v.push(104);
        v.push(32);
        v.push(102);
        v.push(105);
        v.push(108);
        v.push(101);
        proof {
            assert(v@ =~= spec_not_found_text());
        }
        v
    }
}

/// The ASCII bytes of "no such file".
pub open spec fn spec_not_found_text() -> Seq<u8> {
    seq![110u8, 111u8, 32u8, 115u8, 117u8, 99u8, 104u8, 32u8, 102u8, 105u8, 108u8, 101u8]
}

/// The mapping carried by a sequence of catalogue entries; later entries win,
/// though a well-formed catalogue never holds a name twice.
pub open spec fn map_of(entries: Seq<(Vec<u8>, Vec<u8>)>) -> Map<Seq<u8>, Seq<u8>>
    decreases entries.len(),
{
    if entries.len() == 0 {
        Map::empty()
    } else {
        map_of(entries.drop_last()).insert(entries.last().0@, entries.last().1@)
    }
}

/// A name is in the mapping exactly when some entry carries it.
proof fn lemma_map_of_domain(entries: Seq<(Vec<u8>, Vec<u8>)>, k: Seq<u8>)
    ensures
        map_of(entries).contains_key(k) <==> exists|i: int|
            0 <= i < entries.len() && #[trigger] entries[i].0@ == k,
    decreases entries.len(),
{
    if entries.len() > 0 {
        let dl = entries.drop_last();
        lemma_map_of_domain(dl, k);
        if map_of(entries).contains_key(k) {
            if entries.last().0@ == k {
                assert(entries[entries.len() - 1].0@ == k);
            } else {
                let i = choose|i: int| 0 <= i < dl.len() && #[trigger] dl[i].0@ == k;
                assert(entries[i].0@ == k);
            }
        }
        if exists|i: int| 0 <= i < entries.len() && #[trigger] entries[i].0@ == k {
            let i = choose|i: int| 0 <= i < entries.len() && #[trigger] entries[i].0@ == k;
            if i < entries.len() - 1 {
                assert(dl[i].0@ == k);
            }
        }
    }
}

/// An entry whose name no later entry repeats decides the mapping's value at
/// that name.
proof fn lemma_map_of_value(entries: Seq<(Vec<u8>, Vec<u8>)>, i: int)
    requires
        0 <= i < entries.len(),
        forall|j: int| i < j < entries.len() ==> #[trigger] entries[j].0@ != entries[i].0@,
    ensures
        map_of(entries).contains_key(entries[i].0@),
        map_of(entries)[entries[i].0@] == entries[i].1@,
    decreases entries.len(),
{
    lemma_map_of_domain(entries, entries[i].0@);
    if i < entries.len() - 1 {
        assert(entries.drop_last()[i] == entries[i]);
        lemma_map_of_value(entries.drop_last(), i);
    }
}

/// Removing an entry removes exactly its name from the mapping, provided the
/// names are unique.
proof fn lemma_map_of_remove(entries: Seq<(Vec<u8>, Vec<u8>)>, i: int)
    requires
        0 <= i < entries.len(),
        forall|p: int, q: int|
            0 <= p < q < entries.len() ==> (#[trigger] entries[p].0@) != (#[trigger] entries[q].0@),
    ensures
        map_of(entries.remove(i)) =~= map_of(entries).remove(entries[i].0@),
    decreases entries.len(),
{
    let k = entries[i].0@;
    lemma_map_of_domain(entries.drop_last(), k);
    if i == entries.len() - 1 {
        assert(entries.remove(i) =~= entries.drop_last());
        assert(!map_of(entries.drop_last()).contains_key(k));
    } else {
        assert(entries.remove(i).drop_last() =~= entries.drop_last().remove(i));
        assert(entries.remove(i).last() == entries.last());
        lemma_map_of_remove(entries.drop_last(), i);
    }
}

/// Overwriting the value of an entry whose name is unique rewrites exactly
/// that name's value in the mapping.
proof fn lemma_map_of_update(entries: Seq<(Vec<u8>, Vec<u8>)>, i: int, v: (Vec<u8>, Vec<u8>))
    requires
        0 <= i < entries.len(),
        v.0@ == entries[i].0@,
        forall|p: int, q: int|
            0 <= p < q < entries.len() ==> (#[trigger] entries[p].0@) != (#[trigger] entries[q].0@),
    ensures
        map_of(entries.update(i, v)) =~= map_of(entries).insert(v.0@, v.1@),
    decreases entries.len(),
{
    if i == entries.len() - 1 {
        assert(entries.update(i, v).drop_last() =~= entries.drop_last());
        assert(entries.update(i, v).last() == v);
    } else {
        assert(entries.update(i, v).drop_last() =~= entries.drop_last().update(i, v));
        assert(entries.update(i, v).last() == entries.last());
        lemma_map_of_update(entries.drop_last(), i, v);
        assert(entries.last().0@ != v.0@);
    }
}

/// The metadata catalogue: name to value, one entry per name, in insertion
/// order.
pub struct Catalog {
    entries: Vec<(Vec<u8>, Vec<u8>)>,
}

impl Catalog {
    /// The names held, in insertion order.
    pub closed spec fn spec_names(self) -> Seq<Seq<u8>> {
        self.entries@.map_values(|p: (Vec<u8>, Vec<u8>)| p.0@)
    }

    /// The name-to-value mapping held.
    pub closed spec fn as_map(self) -> Map<Seq<u8>, Seq<u8>> {
        map_of(self.entries@)
    }

    /// Well-formedness: no name is held twice.
    pub closed spec fn wf(self) -> bool {
        forall|p: int, q: int|
            0 <= p < q < self.entries@.len() ==> (#[trigger] self.entries@[p].0@) != (
            #[trigger] self.entries@[q].0@)
    }

    /// Every held name is in the mapping, with the value of its entry.
    proof fn lemma_view(self)
        requires
            self.wf(),
        ensures
            forall|k: Seq<u8>|
                #[trigger] self.as_map().contains_key(k) <==> self.spec_names().contains(k),
            forall|i: int|
                0 <= i < self.entries@.len() ==> self.as_map().contains_key(
                    #[trigger] self.entries@[i].0@,
                ) && self.as_map()[self.entries@[i].0@] == self.entries@[i].1@,
    {
        assert forall|k: Seq<u8>| #[trigger]
            self.as_map().contains_key(k) <==> self.spec_names().contains(k) by {
            lemma_map_of_domain(self.entries@, k);
            if self.as_map().contains_key(k) {
                let i = choose|i: int|
                    0 <= i < self.entries@.len() && #[trigger] self.entries@[i].0@ == k;
                assert(self.spec_names()[i] == k);
            }
            if self.spec_names().contains(k) {
                let i = choose|i: int|
                    0 <= i < self.spec_names().len() && #[trigger] self.spec_names()[i] == k;
                assert(self.entries@[i].0@ == k);
            }
        }
        assert forall|i: int| 0 <= i < self.entries@.len() implies self.as_map().contains_key(
            #[trigger] self.entries@[i].0@,
        ) && self.as_map()[self.entries@[i].0@] == self.entries@[i].1@ by {
            lemma_map_of_value(self.entries@, i);
        }
    }

    /// An empty catalogue.
    pub fn new() -> (c: Catalog)
        ensures
            c.wf(),
            c.as_map() == Map::<Seq<u8>, Seq<u8>>::empty(),
            c.spec_names() == Seq::<Seq<u8>>::empty(),
    {
        let c = Catalog { entries: Vec::new() };
        proof {
            assert(c.spec_names() =~= Seq::<Seq<u8>>::empty());
        }
        c
    }

    /// The position of a name, if it is held.
    fn find(&self, name: &Vec<u8>) -> (r: Option<usize>)
        ensures
            match r {
                Some(i) => i < self.entries@.len() && self.entries@[i as int].0@ == name@,
                None => forall|i: int|
                    0 <= i < self.entries@.len() ==> (#[trigger] self.entries@[i].0@) != name@,
            },
    {
        let mut i: usize = 0;
        while i < self.entries.len()
            invariant
                i <= self.entries@.len(),
                forall|j: int| 0 <= j < i ==> (#[trigger] self.entries@[j].0@) != name@,
            decreases self.entries@.len() - i,
        {
            if bytes_eq(&self.entries[i].0, name) {
                return Some(i);
            }
            i = i + 1;
        }
        None
    }

    /// Insert a fresh name or overwrite the value of a held one: afterwards
    /// the catalogue maps the name to exactly this value, everything else is
    /// untouched, and a fresh name is appended at the end of the listing
    /// order.
    pub fn insert_or_update(&mut self, name: &Vec<u8>, value: &Vec<u8>)
        requires
            old(self).wf(),
        ensures
            final(self).wf(),
            final(self).as_map() == old(self).as_map().insert(name@, value@),
            old(self).spec_names().contains(name@) ==> final(self).spec_names() == old(
                self,
            ).spec_names(),
            !old(self).spec_names().contains(name@) ==> final(self).spec_names() == old(
                self,
            ).spec_names().push(name@),
    {
        let entry = (copy_bytes(name), copy_bytes(value));
        match self.find(name) {
            Some(i) => {
                proof {
                    lemma_map_of_update(self.entries@, i as int, entry);
                }
                let ghost oldnames = self.spec_names();
                self.entries[i] = entry;
                proof {
                    assert(self.spec_names() =~= oldnames);
                    assert(oldnames[i as int] == name@);
                }
            },
            None => {
                let ghost oldentries = self.entries@;
                self.entries.push(entry);
                proof {
                    assert(self.entries@.drop_last() =~= oldentries);
                    assert(self.spec_names() =~= map_of_names(oldentries).push(name@));
                    if map_of_names(oldentries).contains(name@) {
                        let i = choose|i: int|
                            0 <= i < oldentries.len() && #[trigger] map_of_names(oldentries)[i]
                                == name@;
                        assert(oldentries[i].0@ == name@);
                    }
                }
            },
        }
    }

    /// Look a name up; the value comes back exactly when the name is held.
    pub fn get(&self, name: &Vec<u8>) -> (r: Option<Vec<u8>>)
        requires
            self.wf(),
        ensures
            match r {
                Some(v) => self.as_map().contains_key(name@) && v@ == self.as_map()[name@],
                None => !self.as_map().contains_key(name@),
            },
    {
        proof {
            self.lemma_view();
        }
        match self.find(name) {
            Some(i) => {
                proof {
                    lemma_map_of_domain(self.entries@, name@);
                }
                Some(copy_bytes(&self.entries[i].1))
            },
            None => {
                proof {
                    lemma_map_of_domain(self.entries@, name@);
                }
                None
            },
        }
    }

    /// Delete a held name and succeed, or report `NotFound` for an absent
    /// one and change nothing: deleting never touches other entries.
    pub fn delete(&mut self, name: &Vec<u8>) -> (r: Result<(), StoreError>)
        requires
            old(self).wf(),
        ensures
            final(self).wf(),
            r is Ok <==> old(self).as_map().contains_key(name@),
            final(self).as_map() == old(self).as_map().remove(name@),
            r is Err ==> *final(self) == *old(self),
    {
        proof {
            self.lemma_view();
        }
        match self.find(name) {
            Some(i) => {
                proof {
                    lemma_map_of_remove(self.entries@, i as int);
                }
                let ghost oldentries = self.entries@;
                self.entries.remove(i);
                proof {
                    assert(self.entries@ =~= oldentries.remove(i as int));
                }
                Ok(())
            },
            None => {
                proof {
                    lemma_map_of_domain(self.entries@, name@);
                    assert(self.as_map() =~= self.as_map().remove(name@));
                }
                Err(StoreError::NotFound)
            },
        }
    }

    /// Every entry, in listing order: the names in insertion order, each
    /// with the value the catalogue maps it to.
    pub fn list(&self) -> (r: Vec<(Vec<u8>, Vec<u8>)>)
        requires
            self.wf(),
        ensures
            r@.len() == self.spec_names().len(),
            forall|i: int|
                0 <= i < r@.len() ==> (#[trigger] r@[i].0@) == self.spec_names()[i]
                    && self.as_map().contains_key(r@[i].0@) && r@[i].1@ == self.as_map()[r@[i].0@],
    {
        proof {
            self.lemma_view();
        }
        let mut r: Vec<(Vec<u8>, Vec<u8>)> = Vec::new();
        let mut i: usize = 0;
        while i < self.entries.len()
            invariant
                i <= self.entries@.len(),
                self.wf(),
                r@.len() == i,
                forall|j: int|
                    0 <= j < i ==> (#[trigger] r@[j].0@) == self.entries@[j].0@ && r@[j].1@
                        == self.entries@[j].1@,
            decreases self.entries@.len() - i,
        {
            let pair = (copy_bytes(&self.entries[i].0), copy_bytes(&self.entries[i].1));
            let ghost p0 = pair.0@;
            let ghost p1 = pair.1@;
            let ghost oldr = r@;
            r.push(pair);
            proof {
                assert forall|j: int| 0 <= j < i + 1 implies (#[trigger] r@[j].0@)
                    == self.entries@[j].0@ && r@[j].1@ == self.entries@[j].1@ by {
                    if j < i {
                        assert(oldr[j].0@ == self.entries@[j].0@);
                        assert(r@[j] == oldr[j]);
                    } else {
                        assert(r@[j].0@ == p0);
                        assert(r@[j].1@ == p1);
                    }
                }
            }
            i = i + 1;
        }
        proof {
            self.lemma_view();
        }
        r
    }

    /// How many names are held.
    pub fn len(&self) -> (n: usize)
        ensures
            n == self.spec_names().len(),
    {
        self.entries.len()
    }
}

/// The names of a sequence of entries, in order.
pub open spec fn map_of_names(entries: Seq<(Vec<u8>, Vec<u8>)>) -> Seq<Seq<u8>> {
    entries.map_values(|p: (Vec<u8>, Vec<u8>)| p.0@)
}

/// Storing a file and reading it straight back yields exactly the stored
/// bytes: an upload followed by a download of the same name round-trips.
pub proof fn lemma_store_round_trip(m: Map<Seq<u8>, Seq<u8>>, name: Seq<u8>, value: Seq<u8>)
    ensures
        m.insert(name, value).contains_key(name),
        m.insert(name, value)[name] == value,
{
}

/// Deleting a name leaves it unknown and leaves every other name's value
/// untouched.
pub proof fn lemma_delete_removes(m: Map<Seq<u8>, Seq<u8>>, name: Seq<u8>, other: Seq<u8>)
    requires
        other != name,
    ensures
        !m.remove(name).contains_key(name),
        m.remove(name).contains_key(other) <==> m.contains_key(other),
        m.contains_key(other) ==> m.remove(name)[other] == m[other],
{
}

} // verus!
