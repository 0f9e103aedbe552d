use vstd::prelude::*;

verus! {

/// The value stored under `id` in an association list, searching from the most recent entry.
pub open spec fn lookup<T>(entries: Seq<(String, T)>, id: Seq<char>) -> Option<T>
    decreases entries.len(),
{
    if entries.len() == 0 {
        None
    } else if entries.last().0@ == id {
        Some(entries.last().1)
    } else {
        lookup(entries.drop_last(), id)
    }
}

/// No id occurs twice.
pub open spec fn distinct_ids<T>(entries: Seq<(String, T)>) -> bool {
    forall|i: int, j: int|
        0 <= i < j < entries.len() ==> #[trigger] entries[i].0@ != #[trigger] entries[j].0@
}

proof fn lemma_lookup_at<T>(entries: Seq<(String, T)>, i: int)
    requires
        distinct_ids(entries),
        0 <= i < entries.len(),
    ensures
        lookup(entries, entries[i].0@) == Some(entries[i].1),
    decreases entries.len(),
{
    if i < entries.len() - 1 {
        assert(entries.last().0@ != entries[i].0@);
        assert(entries.drop_last()[i] == entries[i]);
        lemma_lookup_at(entries.drop_last(), i);
    }
}

proof fn lemma_lookup_absent<T>(entries: Seq<(String, T)>, id: Seq<char>)
    requires
        forall|i: int| 0 <= i < entries.len() ==> #[trigger] entries[i].0@ != id,
    ensures
        lookup(entries, id) is None,
    decreases entries.len(),
{
    if entries.len() > 0 {
        assert(entries.last().0@ != id);
        assert forall|i: int| 0 <= i < entries.drop_last().len() implies #[trigger] entries.drop_last()[i].0@
            != id by {
            assert(entries.drop_last()[i] == entries[i]);
        }
        lemma_lookup_absent(entries.drop_last(), id);
    }
}

proof fn lemma_lookup_some<T>(entries: Seq<(String, T)>, id: Seq<char>)
    requires
        lookup(entries, id) is Some,
    ensures
        exists|i: int| 0 <= i < entries.len() && #[trigger] entries[i].0@ == id,
    decreases entries.len(),
{
    if entries.last().0@ == id {
        assert(entries[entries.len() - 1].0@ == id);
    } else {
        lemma_lookup_some(entries.drop_last(), id);
        let i = choose|i: int| 0 <= i < entries.drop_last().len() && #[trigger] entries.drop_last()[i].0@ == id;
        assert(entries[i] == entries.drop_last()[i]);
    }
}

proof fn lemma_lookup_replace<T>(entries: Seq<(String, T)>, i: int, v: T, id: Seq<char>)
    requires
        distinct_ids(entries),
        0 <= i < entries.len(),
    ensures
        lookup(entries.update(i, (entries[i].0, v)), id) == if id == entries[i].0@ {
            Some(v)
        } else {
            lookup(entries, id)
        },
    decreases entries.len(),
{
    let e2 = entries.update(i, (entries[i].0, v));
    if i == entries.len() - 1 {
        assert(e2.drop_last() =~= entries.drop_last());
    } else {
        assert(e2.drop_last() =~= entries.drop_last().update(i, (entries[i].0, v)));
        assert(entries.drop_last()[i] == entries[i]);
        assert(entries.last().0@ != entries[i].0@);
        lemma_lookup_replace(entries.drop_last(), i, v, id);
    }
}

/// Whether two ids spell the same text.
pub fn same_id(a: &String, b: &String) -> (r: bool)
    ensures
        r == (a@ == b@),
{
    *a == *b
}

/// Maps a stable string id to a definition, one entry per id; registering an id again
/// replaces its definition.
pub struct DefLibrary<T> {
    defs: Vec<(String, T)>,
}

impl<T> DefLibrary<T> {
    /// Ids are unique.
    pub closed spec fn wf(&self) -> bool {
        distinct_ids(self.defs@)
    }

    /// The definition registered under `id`, if any.
    pub closed spec fn spec_get(&self, id: Seq<char>) -> Option<T> {
        lookup(self.defs@, id)
    }

    /// Number of registered ids.
    pub closed spec fn spec_len(&self) -> nat {
        self.defs@.len()
    }

    /// The id and definition at position `i` of the registration order.
    pub closed spec fn spec_entry(&self, i: int) -> (Seq<char>, T) {
        (self.defs@[i].0@, self.defs@[i].1)
    }

    /// The registration order lists exactly the registered definitions: each entry is what its
    /// id resolves to, and every registered id has an entry.
    pub open spec fn entries_match(&self) -> bool {
        &&& forall|i: int|
            0 <= i < self.spec_len() ==> self.spec_get(#[trigger] self.spec_entry(i).0) == Some(
                self.spec_entry(i).1,
            )
        &&& forall|id: Seq<char>|
            #[trigger] self.spec_get(id) is Some ==> exists|i: int|
                0 <= i < self.spec_len() && #[trigger] self.spec_entry(i).0 == id
    }

    /// A well-formed library's entries match its lookups.
    pub proof fn lemma_entries_match(&self)
        requires
            self.wf(),
        ensures
            self.entries_match(),
    {
        assert forall|i: int| 0 <= i < self.spec_len() implies self.spec_get(
            #[trigger] self.spec_entry(i).0,
        ) == Some(self.spec_entry(i).1) by {
            lemma_lookup_at(self.defs@, i);
        }
        assert forall|id: Seq<char>| #[trigger] self.spec_get(id) is Some implies exists|i: int|
            0 <= i < self.spec_len() && #[trigger] self.spec_entry(i).0 == id by {
            lemma_lookup_some(self.defs@, id);
            let i = choose|i: int| 0 <= i < self.defs@.len() && #[trigger] self.defs@[i].0@ == id;
            assert(self.spec_entry(i).0 == id);
        }
    }

    /// An empty library.
    pub fn new() -> (lib: Self)
        ensures
            lib.wf(),
            lib.spec_len() == 0,
            forall|id: Seq<char>| lib.spec_get(id) is None,
    {
        DefLibrary { defs: Vec::new() }
    }

    /// Registers `def` under `id`, replacing an earlier definition for the same id.
    pub fn insert(&mut self, id: String, def: T)
        requires
            old(self).wf(),
        ensures
            final(self).wf(),
            forall|k: Seq<char>| #[trigger] final(self).spec_get(k) == if k == id@ {
                Some(def)
            } else {
                old(self).spec_get(k)
            },
            final(self).spec_len() == old(self).spec_len() + if old(self).spec_get(id@) is Some {
                0int
            } else {
                1int
            },
            forall|i: int|
                0 <= i < old(self).spec_len() ==> #[trigger] final(self).spec_entry(i).0 == old(
                    self,
                ).spec_entry(i).0,
            old(self).spec_get(id@) is None ==> final(self).spec_entry(old(self).spec_len() as int) == (
                id@,
                def,
            ),
            final(self).entries_match(),
    {
        let ghost before = self.defs@;
        let mut i: usize = 0;
        while i < self.defs.len()
            invariant
                self.defs@ == before,
                before == old(self).defs@,
                distinct_ids(before),
                i <= before.len(),
                forall|j: int| 0 <= j < i ==> #[trigger] before[j].0@ != id@,
            decreases self.defs.len() - i,
        {
            if same_id(&self.defs[i].0, &id) {
                let key = self.defs[i].0.clone();
                self.defs.set(i, (key, def));
                assert(self.defs@ =~= before.update(i as int, (before[i as int].0, def)));
                assert forall|k: Seq<char>| #[trigger] self.spec_get(k) == if k == id@ {
                    Some(def)
                } else {
                    lookup(before, k)
                } by {
                    lemma_lookup_replace(before, i as int, def, k);
                }
                proof {
                    lemma_lookup_at(before, i as int);
                }

                assert(distinct_ids(self.defs@)) by {
                    assert forall|a: int, b: int| 0 <= a < b < self.defs@.len() implies #[trigger] self.defs@[a].0@
                        != #[trigger] self.defs@[b].0@ by {
                        assert(before[a].0@ != before[b].0@);
                    }
                }
                proof {
                    self.lemma_entries_match();
                }
                return;
            }
            i = i + 1;
        }
        proof {
            lemma_lookup_absent(before, id@);
        }
        self.defs.push((id, def));
        assert(distinct_ids(self.defs@)) by {
            assert forall|a: int, b: int| 0 <= a < b < self.defs@.len() implies #[trigger] self.defs@[a].0@
                != #[trigger] self.defs@[b].0@ by {
                if b == before.len() {
                    assert(before[a].0@ != id@);
                } else {
                    assert(before[a].0@ != before[b].0@);
                }
            }
        }
        assert forall|k: Seq<char>| #[trigger] self.spec_get(k) == if k == id@ {
            Some(def)
        } else {
            lookup(before, k)
        } by {
            assert(self.defs@.drop_last() =~= before);
        }
        proof {
            self.lemma_entries_match();
        }
    }

    /// Resolves an id to its definition, if the id is registered.
    pub fn get(&self, id: &str) -> (r: Option<&T>)
        requires
            self.wf(),
        ensures
            r matches Some(v) ==> self.spec_get(id@) == Some(*v),
            r is None ==> self.spec_get(id@) is None,
    {
        let key = id.to_owned();
        let mut i: usize = 0;
        while i < self.defs.len()
            invariant
                self.wf(),
                key@ == id@,
                i <= self.defs@.len(),
                forall|j: int| 0 <= j < i ==> #[trigger] self.defs@[j].0@ != id@,
            decreases self.defs.len() - i,
        {
            if same_id(&self.defs[i].0, &key) {
                proof {
                    lemma_lookup_at(self.defs@, i as int);
                }
                return Some(&self.defs[i].1);
            }
            i = i + 1;
        }
        proof {
            lemma_lookup_absent(self.defs@, id@);
        }
        None
    }

    /// Number of registered ids.
    pub fn len(&self) -> (n: usize)
        ensures
            n == self.spec_len(),
    {
        self.defs.len()
    }

    /// The definition at position `i` of the registration order.
    pub fn value_at(&self, i: usize) -> (v: &T)
        requires
            i < self.spec_len(),
        ensures
            *v == self.spec_entry(i as int).1,
    {
        &self.defs[i].1
    }
}

impl<T> Default for DefLibrary<T> {
    fn default() -> (lib: Self)
        ensures
            lib.wf(),
            lib.spec_len() == 0,
            forall|id: Seq<char>| lib.spec_get(id) is None,
    {
        DefLibrary::new()
    }
}

} // verus!
