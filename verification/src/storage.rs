//! Key-value storage: the store interface and the in-memory store.
use vstd::prelude::*;
use crate::types::Key;
use crate::types::U256;

verus! {

/// The map denoted by an association list, later entries winning.
pub open spec fn assoc_map(s: Seq<(Key, U256)>) -> Map<Key, U256>
    decreases s.len(),
{
    if s.len() == 0 {
        Map::empty()
    } else {
        assoc_map(s.drop_last()).insert(s.last().0, s.last().1)
    }
}

/// The keys of an association list, in order.
pub open spec fn assoc_keys(s: Seq<(Key, U256)>) -> Seq<Key> {
    s.map_values(|e: (Key, U256)| e.0)
}

/// The domain of the denoted map is the set of listed keys.
pub proof fn lemma_assoc_map_dom(s: Seq<(Key, U256)>)
    ensures
        assoc_map(s).dom() == assoc_keys(s).to_set(),
    decreases s.len(),
{
    if s.len() == 0 {
        assert(assoc_map(s).dom() =~= assoc_keys(s).to_set());
    } else {
        lemma_assoc_map_dom(s.drop_last());
        assert(assoc_keys(s.drop_last()) =~= assoc_keys(s).drop_last());
        assert forall|k: Key| assoc_map(s).dom().contains(k) implies assoc_keys(
            s,
        ).to_set().contains(k) by {
            if k == s.last().0 {
                assert(assoc_keys(s)[s.len() - 1] == k);
            } else {
                let i = choose|i: int|
                    0 <= i < assoc_keys(s.drop_last()).len() && assoc_keys(s.drop_last())[i] == k;
                assert(assoc_keys(s)[i] == k);
            }
        }
        assert forall|k: Key| assoc_keys(s).to_set().contains(k) implies assoc_map(
            s,
        ).dom().contains(k) by {
            let i = choose|i: int| 0 <= i < assoc_keys(s).len() && assoc_keys(s)[i] == k;
            if i < s.len() - 1 {
                assert(assoc_keys(s.drop_last())[i] == k);
            }
        }
        assert(assoc_map(s).dom() =~= assoc_keys(s).to_set());
    }
}

/// With unique keys, the listed entry gives the value of its key.
pub proof fn lemma_assoc_map_at(s: Seq<(Key, U256)>, i: int)
    requires
        assoc_keys(s).no_duplicates(),
        0 <= i < s.len(),
    ensures
        assoc_map(s).dom().contains(s[i].0),
        assoc_map(s)[s[i].0] == s[i].1,
    decreases s.len(),
{
    lemma_assoc_map_dom(s);
    assert(assoc_keys(s)[i] == s[i].0);
    if i == s.len() - 1 {
    } else {
        assert(assoc_keys(s.drop_last()) =~= assoc_keys(s).drop_last());
        lemma_assoc_map_at(s.drop_last(), i);
        assert(assoc_keys(s)[i] != assoc_keys(s)[s.len() - 1]);
    }
}

/// Updating the entry of a key denotes a map insert.
pub proof fn lemma_assoc_map_update(s: Seq<(Key, U256)>, i: int, v: U256)
    requires
        assoc_keys(s).no_duplicates(),
        0 <= i < s.len(),
    ensures
        assoc_map(s.update(i, (s[i].0, v))) == assoc_map(s).insert(s[i].0, v),
        assoc_keys(s.update(i, (s[i].0, v))) == assoc_keys(s),
    decreases s.len(),
{
    let t = s.update(i, (s[i].0, v));
    assert(assoc_keys(t) =~= assoc_keys(s));
    if i == s.len() - 1 {
        assert(t.drop_last() =~= s.drop_last());
        assert(assoc_map(t) =~= assoc_map(s).insert(s[i].0, v));
    } else {
        assert(assoc_keys(s.drop_last()) =~= assoc_keys(s).drop_last());
        lemma_assoc_map_update(s.drop_last(), i, v);
        assert(t.drop_last() =~= s.drop_last().update(i, (s[i].0, v)));
        assert(t.last() == s.last());
        assert(assoc_map(t) == assoc_map(s.drop_last()).insert(s[i].0, v).insert(
            s.last().0,
            s.last().1,
        ));
        assert(s[i].0 != s.last().0) by {
            assert(assoc_keys(s)[i] == s[i].0);
            assert(assoc_keys(s)[s.len() - 1] == s.last().0);
        }
        assert(assoc_map(s.drop_last()).insert(s[i].0, v).insert(s.last().0, s.last().1)
            =~= assoc_map(s.drop_last()).insert(s.last().0, s.last().1).insert(s[i].0, v));
    }
}

/// The interface the executor needs of a storage backend.
pub trait KVStore: Sized {
    /// The map this store denotes.
    spec fn sview(&self) -> Map<Key, U256>;

    /// The value of a key, or zero when the key is absent.
    fn get(&self, key: &Key) -> (r: U256)
        ensures
            self.sview().dom().contains(*key) ==> r == self.sview()[*key],
            !self.sview().dom().contains(*key) ==> r.as_nat() == 0,
    ;

    /// Binds a key to a value.
    fn set(&mut self, key: Key, value: U256)
        ensures
            final(self).sview() == old(self).sview().insert(key, value),
    ;

    /// Whether the key is present.
    fn contains(&self, key: &Key) -> (r: bool)
        ensures
            r == self.sview().dom().contains(*key),
    ;

    /// Every present key, each exactly once.
    fn keys(&self) -> (r: Vec<Key>)
        ensures
            r@.no_duplicates(),
            r@.to_set() == self.sview().dom(),
    ;

    /// The number of present keys.
    fn len(&self) -> (r: usize)
        ensures
            r == self.sview().dom().len(),
    ;

    /// Whether no key is present.
    fn is_empty(&self) -> (r: bool)
        ensures
            r == (self.sview().dom().len() == 0),
    ;

    /// Removes every binding.
    fn clear(&mut self)
        ensures
            final(self).sview() == Map::<Key, U256>::empty(),
    ;

    /// An independent copy that denotes the same map.
    fn snapshot(&self) -> (r: Self)
        ensures
            r.sview() == self.sview(),
    ;
}

/// An in-memory store backed by an association list with unique keys.
#[derive(Debug)]
pub struct MemoryStore {
    entries: Vec<(Key, U256)>,
}

impl MemoryStore {
    /// The map this store denotes.
    pub closed spec fn mview(&self) -> Map<Key, U256> {
        assoc_map(self.entries@)
    }

    /// Each key occurs at most once.
    #[verifier::type_invariant]
    pub closed spec fn wf(self) -> bool {
        assoc_keys(self.entries@).no_duplicates()
    }

    pub fn new() -> (r: MemoryStore)
        ensures
            r.sview() == Map::<Key, U256>::empty(),
    {
        MemoryStore { entries: Vec::new() }
    }

    /// The position of a key's entry, if the key is present.
    fn find(&self, key: &Key) -> (r: Option<usize>)
        ensures
            match r {
                Some(i) => i < self.entries@.len() && self.entries@[i as int].0 == *key,
                None => forall|j: int|
                    0 <= j < self.entries@.len() ==> self.entries@[j].0 != *key,
            },
    {
        self.find_in(&self.entries, key)
    }

    /// The position of a key's entry in a list, if the key is present.
    fn find_in(&self, es: &Vec<(Key, U256)>, key: &Key) -> (r: Option<usize>)
        ensures
            match r {
                Some(i) => i < es@.len() && es@[i as int].0 == *key,
                None => forall|j: int| 0 <= j < es@.len() ==> es@[j].0 != *key,
            },
    {
        let mut i: usize = 0;
        while i < es.len()
            invariant
                0 <= i <= es@.len(),
                forall|j: int| 0 <= j < i ==> es@[j].0 != *key,
            decreases es@.len() - i,
        {
            if es[i].0 == *key {
                return Some(i);
            }
            i += 1;
        }
        None
    }
}

impl Clone for MemoryStore {
    fn clone(&self) -> (r: Self)
        ensures
            r.sview() == self.sview(),
    {
        proof {
            use_type_invariant(&*self);
        }
        let mut out: Vec<(Key, U256)> = Vec::new();
        let mut i: usize = 0;
        while i < self.entries.len()
            invariant
                0 <= i <= self.entries@.len(),
                out@ == self.entries@.take(i as int),
            decreases self.entries@.len() - i,
        {
            out.push(self.entries[i]);
            proof {
                assert(self.entries@.take(i + 1) =~= self.entries@.take(i as int).push(
                    self.entries@[i as int],
                ));
            }
            i += 1;
        }
        proof {
            assert(self.entries@.take(self.entries@.len() as int) =~= self.entries@);
        }
        MemoryStore { entries: out }
    }
}

impl KVStore for MemoryStore {
    closed spec fn sview(&self) -> Map<Key, U256> {
        self.mview()
    }

    fn get(&self, key: &Key) -> (r: U256) {
        proof {
            use_type_invariant(&*self);
            lemma_assoc_map_dom(self.entries@);
        }
        match self.find(key) {
            Some(i) => {
                let v = self.entries[i].1;
                proof {
                    lemma_assoc_map_at(self.entries@, i as int);
                }
                v
            },
            None => {
                proof {
                    if self.sview().dom().contains(*key) {
                        let j = choose|j: int|
                            0 <= j < assoc_keys(self.entries@).len() && assoc_keys(
                                self.entries@,
                            )[j] == *key;
                        assert(self.entries@[j].0 == *key);
                    }
                }
                U256::zero()
            },
        }
    }

    fn set(&mut self, key: Key, value: U256) {
        proof {
            use_type_invariant(&*self);
            lemma_assoc_map_dom(self.entries@);
        }
        let ghost s = self.entries@;
        let mut es: Vec<(Key, U256)> = Vec::new();
        core::mem::swap(&mut self.entries, &mut es);
        match self.find_in(&es, &key) {
            Some(i) => {
                proof {
                    lemma_assoc_map_update(s, i as int, value);
                }
                es[i] = (key, value);
            },
            None => {
                proof {
                    assert(assoc_keys(s.push((key, value))) =~= assoc_keys(s).push(key));
                    assert(s.push((key, value)).drop_last() =~= s);
                    if assoc_keys(s).contains(key) {
                        let j = choose|j: int|
                            0 <= j < assoc_keys(s).len() && assoc_keys(s)[j] == key;
                        assert(s[j].0 == key);
                    }
                    crate::types::lemma_key_add_no_dup(assoc_keys(s), key);
                }
                es.push((key, value));
            },
        }
        self.entries = es;
    }

    fn contains(&self, key: &Key) -> (r: bool) {
        proof {
            use_type_invariant(&*self);
            lemma_assoc_map_dom(self.entries@);
        }
        match self.find(key) {
            Some(i) => {
                proof {
                    assert(assoc_keys(self.entries@)[i as int] == *key);
                }
                true
            },
            None => {
                proof {
                    if self.sview().dom().contains(*key) {
                        let j = choose|j: int|
                            0 <= j < assoc_keys(self.entries@).len() && assoc_keys(
                                self.entries@,
                            )[j] == *key;
                        assert(self.entries@[j].0 == *key);
                    }
                }
                false
            },
        }
    }

    fn keys(&self) -> (r: Vec<Key>) {
        proof {
            use_type_invariant(&*self);
        }
        let mut out: Vec<Key> = Vec::new();
        let mut i: usize = 0;
        while i < self.entries.len()
            invariant
                0 <= i <= self.entries@.len(),
                out@ == assoc_keys(self.entries@).take(i as int),
            decreases self.entries@.len() - i,
        {
            out.push(self.entries[i].0);
            proof {
                assert(assoc_keys(self.entries@).take(i + 1) =~= assoc_keys(
                    self.entries@,
                ).take(i as int).push(assoc_keys(self.entries@)[i as int]));
            }
            i += 1;
        }
        proof {
            let ks = assoc_keys(self.entries@);
            assert(ks.take(ks.len() as int) =~= ks);
            lemma_assoc_map_dom(self.entries@);
        }
        out
    }

    fn len(&self) -> (r: usize) {
        proof {
            use_type_invariant(&*self);
            lemma_assoc_map_dom(self.entries@);
            assoc_keys(self.entries@).unique_seq_to_set();
        }
        self.entries.len()
    }

    fn is_empty(&self) -> (r: bool) {
        proof {
            use_type_invariant(&*self);
            lemma_assoc_map_dom(self.entries@);
            assoc_keys(self.entries@).unique_seq_to_set();
        }
        self.entries.len() == 0
    }

    fn clear(&mut self) {
        self.entries = Vec::new();
    }

    fn snapshot(&self) -> (r: Self) {
        self.clone()
    }
}

/// Whether two stores denote the same map: the same keys, each bound to
/// the same value.
pub fn verify_states<S: KVStore>(state1: &S, state2: &S) -> (r: bool)
    ensures
        r == (state1.sview() == state2.sview()),
{
    let keys1 = state1.keys();
    let keys2 = state2.keys();
    proof {
        keys1@.unique_seq_to_set();
        keys2@.unique_seq_to_set();
    }
    if keys1.len() != keys2.len() {
        proof {
            assert(state1.sview().dom().len() != state2.sview().dom().len());
            if state1.sview() == state2.sview() {
                assert(state1.sview().dom() == state2.sview().dom());
            }
        }
        return false;
    }
    let mut i: usize = 0;
    while i < keys1.len()
        invariant
            0 <= i <= keys1@.len(),
            keys1@.no_duplicates(),
            keys1@.to_set() == state1.sview().dom(),
            keys2@.to_set() == state2.sview().dom(),
            forall|j: int| 0 <= j < i ==> state2.sview().dom().contains(#[trigger] keys1@[j]),
            forall|j: int|
                0 <= j < i ==> state1.sview()[#[trigger] keys1@[j]] == state2.sview()[keys1@[j]],
        decreases keys1@.len() - i,
    {
        let k = keys1[i];
        if !state2.contains(&k) {
            proof {
                assert(state1.sview().dom().contains(k)) by {
                    assert(keys1@.contains(k));
                }
                if state1.sview() == state2.sview() {
                    assert(state2.sview().dom().contains(k));
                }
            }
            return false;
        }
        let v1 = state1.get(&k);
        let v2 = state2.get(&k);
        if !(v1 == v2) {
            proof {
                assert(state1.sview().dom().contains(k)) by {
                    assert(keys1@.contains(k));
                }
                assert(v1 == state1.sview()[k]);
                assert(v2 == state2.sview()[k]);
            }
            return false;
        }
        i += 1;
    }
    proof {
        assert forall|k: Key| state1.sview().dom().contains(k) implies
            state2.sview().dom().contains(k) by {
            assert(keys1@.to_set().contains(k));
            let j = choose|j: int| 0 <= j < keys1@.len() && keys1@[j] == k;
        }
        assert(state1.sview().dom().subset_of(state2.sview().dom()));
        vstd::seq_lib::seq_to_set_is_finite::<Key>(keys1@);
        vstd::seq_lib::seq_to_set_is_finite::<Key>(keys2@);
        keys1@.unique_seq_to_set();
        keys2@.unique_seq_to_set();
        vstd::set_lib::lemma_subset_equality(state1.sview().dom(), state2.sview().dom());
        assert(state1.sview().dom() =~= state2.sview().dom());
        assert forall|k: Key| state1.sview().dom().contains(k) implies state1.sview()[k]
            == state2.sview()[k] by {
            assert(keys1@.to_set().contains(k));
            let j = choose|j: int| 0 <= j < keys1@.len() && keys1@[j] == k;
        }
        assert(state1.sview() =~= state2.sview());
    }
    true
}

/// The trait view and the inherent view of an in-memory store agree.
pub proof fn lemma_memory_store_views(m: &MemoryStore)
    ensures
        m.sview() == m.mview(),
{
}


} // verus!
