use vstd::prelude::*;

verus! {

/// The map an association list stands for: later entries override earlier
/// entries with the same key.
pub open spec fn assoc_map<K>(s: Seq<(K, u8)>) -> Map<K, u8>
    decreases s.len(),
{
    if s.len() == 0 {
        Map::empty()
    } else {
        assoc_map(s.drop_last()).insert(s.last().0, s.last().1)
    }
}

/// An entry that no later entry overrides is what the map holds for its key.
pub proof fn lemma_assoc_last<K>(s: Seq<(K, u8)>, i: int)
    requires
        0 <= i < s.len(),
        forall|j: int| i < j < s.len() ==> s[j].0 != s[i].0,
    ensures
        assoc_map(s).contains_key(s[i].0),
        assoc_map(s)[s[i].0] == s[i].1,
    decreases s.len(),
{
    if i < s.len() - 1 {
        lemma_assoc_last(s.drop_last(), i);
    }
}

/// A key that no entry carries is not in the map.
pub proof fn lemma_assoc_absent<K>(s: Seq<(K, u8)>, k: K)
    requires
        forall|j: int| 0 <= j < s.len() ==> s[j].0 != k,
    ensures
        !assoc_map(s).contains_key(k),
    decreases s.len(),
{
    if s.len() > 0 {
        lemma_assoc_absent(s.drop_last(), k);
    }
}

/// Overwriting the value of the last entry with a given key is an insert.
pub proof fn lemma_assoc_update<K>(s: Seq<(K, u8)>, i: int, v: u8)
    requires
        0 <= i < s.len(),
        forall|j: int| i < j < s.len() ==> s[j].0 != s[i].0,
    ensures
        assoc_map(s.update(i, (s[i].0, v))) == assoc_map(s).insert(s[i].0, v),
    decreases s.len(),
{
    let t = s.update(i, (s[i].0, v));
    if i == s.len() - 1 {
        assert(t.drop_last() =~= s.drop_last());
        assert(assoc_map(t) =~= assoc_map(s).insert(s[i].0, v));
    } else {
        lemma_assoc_update(s.drop_last(), i, v);
        assert(t.drop_last() =~= s.drop_last().update(i, (s[i].0, v)));
        assert(assoc_map(t) =~= assoc_map(s).insert(s[i].0, v));
    }
}

/// The map's keys are the keys of the entries.
pub proof fn lemma_assoc_dom<K>(s: Seq<(K, u8)>, k: K)
    ensures
        assoc_map(s).contains_key(k) <==> exists|j: int| 0 <= j < s.len() && s[j].0 == k,
    decreases s.len(),
{
    if s.len() > 0 {
        lemma_assoc_dom(s.drop_last(), k);
        if exists|j: int| 0 <= j < s.len() - 1 && s.drop_last()[j].0 == k {
            let j = choose|j: int| 0 <= j < s.len() - 1 && s.drop_last()[j].0 == k;
            assert(s[j].0 == k);
        }
        if exists|j: int| 0 <= j < s.len() && s[j].0 == k {
            let j = choose|j: int| 0 <= j < s.len() && s[j].0 == k;
            if j < s.len() - 1 {
                assert(s.drop_last()[j].0 == k);
            }
        }
    }
}

/// Appending an entry inserts it.
pub proof fn lemma_assoc_push<K>(s: Seq<(K, u8)>, e: (K, u8))
    ensures
        assoc_map(s.push(e)) == assoc_map(s).insert(e.0, e.1),
{
    assert(s.push(e).drop_last() =~= s);
}

/// A fault met while evaluating: a signal that the store does not hold.
#[derive(Debug, PartialEq, Eq)]
pub enum SimError {
    UninitializedSignal(String),
}

/// `r` is the fault for a read or write of signal `name`.
pub open spec fn uninit_err<T>(r: Result<T, SimError>, name: Seq<char>) -> bool {
    match r {
        Err(SimError::UninitializedSignal(n)) => n@ == name,
        Ok(_) => false,
    }
}

/// The signal store: the value of every named signal of a simulation.
pub struct Store {
    entries: Vec<(String, u8)>,
}

pub open spec fn entry_view(e: (String, u8)) -> (Seq<char>, u8) {
    (e.0@, e.1)
}

impl View for Store {
    type V = Map<Seq<char>, u8>;

    closed spec fn view(&self) -> Map<Seq<char>, u8> {
        assoc_map(self.spec_entries())
    }
}

/// The store with every name of `names` that it lacks added at value 0.
pub open spec fn registered(m: Map<Seq<char>, u8>, names: Set<Seq<char>>) -> Map<Seq<char>, u8> {
    Map::new(
        |k: Seq<char>| m.contains_key(k) || names.contains(k),
        |k: Seq<char>|
            if m.contains_key(k) {
                m[k]
            } else {
                0u8
            },
    )
}

impl Store {
    pub closed spec fn spec_entries(&self) -> Seq<(Seq<char>, u8)> {
        self.entries@.map_values(|e: (String, u8)| entry_view(e))
    }

    /// An empty store.
    pub fn new() -> (r: Store)
        ensures
            r@ == Map::<Seq<char>, u8>::empty(),
    {
        let r = Store { entries: Vec::new() };
        assert(r.spec_entries() =~= Seq::empty());
        r
    }

    /// The index of the last entry named `name`.
    fn find(&self, name: &String) -> (r: Option<usize>)
        ensures
            match r {
                Some(i) => {
                    &&& i < self.spec_entries().len()
                    &&& self.spec_entries()[i as int].0 == name@
                    &&& forall|j: int|
                        i < j < self.spec_entries().len() ==> self.spec_entries()[j].0 != name@
                },
                None => forall|j: int|
                    0 <= j < self.spec_entries().len() ==> self.spec_entries()[j].0 != name@,
            },
    {
        let mut i: usize = self.entries.len();
        while i > 0
            invariant
                i <= self.entries.len(),
                forall|j: int|
                    i <= j < self.spec_entries().len() ==> self.spec_entries()[j].0 != name@,
            decreases i,
        {
            i = i - 1;
            if self.entries[i].0 == *name {
                return Some(i);
            }
        }
        None
    }

    /// The value of signal `name`, if the store holds it.
    pub fn get(&self, name: &str) -> (r: Option<u8>)
        ensures
            r == (if self@.contains_key(name@) {
                Some(self@[name@])
            } else {
                None::<u8>
            }),
    {
        let key = name.to_owned();
        match self.find(&key) {
            Some(i) => {
                proof {
                    lemma_assoc_last(self.spec_entries(), i as int);
                }
                Some(self.entries[i].1)
            },
            None => {
                proof {
                    lemma_assoc_absent(self.spec_entries(), name@);
                }
                None
            },
        }
    }

    /// Sets signal `name` to `val`; a name the store does not hold is a fault
    /// and leaves the store as it was.
    pub fn set(&mut self, name: &str, val: u8) -> (r: Result<(), SimError>)
        ensures
            old(self)@.contains_key(name@) ==> r is Ok && final(self)@ == old(self)@.insert(
                name@,
                val,
            ),
            !old(self)@.contains_key(name@) ==> uninit_err(r, name@) && final(self)@ == old(
                self,
            )@,
    {
        let key = name.to_owned();
        match self.find(&key) {
            Some(i) => {
                proof {
                    lemma_assoc_last(self.spec_entries(), i as int);
                    lemma_assoc_update(self.spec_entries(), i as int, val);
                }
                let ghost before = self.spec_entries();
                self.entries.set(i, (key, val));
                assert(self.spec_entries() =~= before.update(i as int, (before[i as int].0, val)));
                Ok(())
            },
            None => {
                proof {
                    lemma_assoc_absent(self.spec_entries(), name@);
                }
                Err(SimError::UninitializedSignal(key))
            },
        }
    }

    /// Adds signal `name` at value 0 unless the store already holds it.
    pub fn register(&mut self, name: &str)
        ensures
            final(self)@ == registered(old(self)@, set![name@]),
    {
        let key = name.to_owned();
        match self.find(&key) {
            Some(i) => {
                proof {
                    lemma_assoc_last(self.spec_entries(), i as int);
                }
                assert(self@ =~= registered(self@, set![name@]));
            },
            None => {
                let ghost before = self.spec_entries();
                proof {
                    lemma_assoc_absent(before, name@);
                    lemma_assoc_push(before, (name@, 0u8));
                }
                self.entries.push((key, 0));
                assert(self.spec_entries() =~= before.push((name@, 0u8)));
                assert(self@ =~= registered(old(self)@, set![name@]));
            },
        }
    }
}

} // verus!
