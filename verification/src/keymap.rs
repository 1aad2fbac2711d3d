//! A small association map keyed by storage key, with a `Map` view.
use vstd::prelude::*;
use crate::types::Key;

verus! {

/// The map denoted by an association list, later entries winning.
pub open spec fn key_assoc_map<V>(s: Seq<(Key, V)>) -> Map<Key, V>
    decreases s.len(),
{
    if s.len() == 0 {
        Map::empty()
    } else {
        key_assoc_map(s.drop_last()).insert(s.last().0, s.last().1)
    }
}

/// The keys of an association list, in order.
pub open spec fn key_assoc_keys<V>(s: Seq<(Key, V)>) -> Seq<Key> {
    s.map_values(|e: (Key, V)| e.0)
}

/// The domain of the denoted map is the set of listed keys.
pub proof fn lemma_key_assoc_dom<V>(s: Seq<(Key, V)>)
    ensures
        key_assoc_map(s).dom() == key_assoc_keys(s).to_set(),
    decreases s.len(),
{
    if s.len() == 0 {
        assert(key_assoc_map(s).dom() =~= key_assoc_keys(s).to_set());
    } else {
        lemma_key_assoc_dom(s.drop_last());
        assert(key_assoc_keys(s.drop_last()) =~= key_assoc_keys(s).drop_last());
        assert forall|k: Key| key_assoc_map(s).dom().contains(k) implies key_assoc_keys(
            s,
        ).to_set().contains(k) by {
            if k == s.last().0 {
                assert(key_assoc_keys(s)[s.len() - 1] == k);
            } else {
                let i = choose|i: int|
                    0 <= i < key_assoc_keys(s.drop_last()).len() && key_assoc_keys(s.drop_last())[i]
                        == k;
                assert(key_assoc_keys(s)[i] == k);
            }
        }
        assert forall|k: Key| key_assoc_keys(s).to_set().contains(k) implies key_assoc_map(
            s,
        ).dom().contains(k) by {
            let i = choose|i: int| 0 <= i < key_assoc_keys(s).len() && key_assoc_keys(s)[i] == k;
            if i < s.len() - 1 {
                assert(key_assoc_keys(s.drop_last())[i] == k);
            }
        }
        assert(key_assoc_map(s).dom() =~= key_assoc_keys(s).to_set());
    }
}

/// With unique keys, the listed entry gives the value of its key.
pub proof fn lemma_key_assoc_at<V>(s: Seq<(Key, V)>, i: int)
    requires
        key_assoc_keys(s).no_duplicates(),
        0 <= i < s.len(),
    ensures
        key_assoc_map(s).dom().contains(s[i].0),
        key_assoc_map(s)[s[i].0] == s[i].1,
    decreases s.len(),
{
    lemma_key_assoc_dom(s);
    assert(key_assoc_keys(s)[i] == s[i].0);
    if i == s.len() - 1 {
    } else {
        assert(key_assoc_keys(s.drop_last()) =~= key_assoc_keys(s).drop_last());
        lemma_key_assoc_at(s.drop_last(), i);
        assert(key_assoc_keys(s)[i] != key_assoc_keys(s)[s.len() - 1]);
    }
}

/// Updating the entry of a key denotes a map insert.
pub proof fn lemma_key_assoc_update<V>(s: Seq<(Key, V)>, i: int, v: V)
    requires
        key_assoc_keys(s).no_duplicates(),
        0 <= i < s.len(),
    ensures
        key_assoc_map(s.update(i, (s[i].0, v))) == key_assoc_map(s).insert(s[i].0, v),
        key_assoc_keys(s.update(i, (s[i].0, v))) == key_assoc_keys(s),
    decreases s.len(),
{
    let t = s.update(i, (s[i].0, v));
    assert(key_assoc_keys(t) =~= key_assoc_keys(s));
    if i == s.len() - 1 {
        assert(t.drop_last() =~= s.drop_last());
        assert(key_assoc_map(t) =~= key_assoc_map(s).insert(s[i].0, v));
    } else {
        assert(key_assoc_keys(s.drop_last()) =~= key_assoc_keys(s).drop_last());
        lemma_key_assoc_update(s.drop_last(), i, v);
        assert(t.drop_last() =~= s.drop_last().update(i, (s[i].0, v)));
        assert(t.last() == s.last());
        assert(s[i].0 != s.last().0) by {
            assert(key_assoc_keys(s)[i] == s[i].0);
            assert(key_assoc_keys(s)[s.len() - 1] == s.last().0);
        }
        assert(key_assoc_map(s.drop_last()).insert(s[i].0, v).insert(s.last().0, s.last().1)
            =~= key_assoc_map(s.drop_last()).insert(s.last().0, s.last().1).insert(s[i].0, v));
    }
}

/// An association list from storage key to a value, each key at most once.
#[derive(Debug)]
pub struct KeyMap<V> {
    entries: Vec<(Key, V)>,
}

impl<V> KeyMap<V> {
    /// Each key occurs at most once.
    #[verifier::type_invariant]
    pub closed spec fn wf(self) -> bool {
        key_assoc_keys(self.entries@).no_duplicates()
    }

    /// The map this list denotes.
    pub closed spec fn view(&self) -> Map<Key, V> {
        key_assoc_map(self.entries@)
    }

    pub fn new() -> (r: KeyMap<V>)
        ensures
            r@ == Map::<Key, V>::empty(),
    {
        let r = KeyMap { entries: Vec::new() };
        proof {
            assert(key_assoc_keys(r.entries@) =~= Seq::<Key>::empty());
        }
        r
    }

    fn find_in(es: &Vec<(Key, V)>, key: &Key) -> (r: Option<usize>)
        ensures
            match r {
                Some(i) => i < es@.len() && es@[i as int].0 == *key,
                None => forall|j: int| 0 <= j < es@.len() ==> es@[j].0 != *key,
            },
    {
        let mut i: usize = 0;
        while i < es.len()
            invariant
                0 <= i <= es@.len(),
                forall|j: int| 0 <= j < i ==> es@[j].0 != *key,
            decreases es@.len() - i,
        {
            if es[i].0 == *key {
                return Some(i);
            }
            i += 1;
        }
        None
    }

    /// Binds a key to a value, replacing any earlier binding.
    pub fn insert(&mut self, key: Key, value: V)
        ensures
            final(self)@ == old(self)@.insert(key, value),
    {
        proof {
            use_type_invariant(&*self);
            lemma_key_assoc_dom(self.entries@);
        }
        let ghost s = self.entries@;
        let mut es: Vec<(Key, V)> = Vec::new();
        core::mem::swap(&mut self.entries, &mut es);
        match Self::find_in(&es, &key) {
            Some(i) => {
                proof {
                    lemma_key_assoc_update(s, i as int, value);
                    assert(key_assoc_keys(s)[i as int] == key);
                }
                es[i] = (key, value);
            },
            None => {
                proof {
                    assert(key_assoc_keys(s.push((key, value))) =~= key_assoc_keys(s).push(key));
                    assert(s.push((key, value)).drop_last() =~= s);
                    if key_assoc_keys(s).contains(key) {
                        let j = choose|j: int|
                            0 <= j < key_assoc_keys(s).len() && key_assoc_keys(s)[j] == key;
                        assert(s[j].0 == key);
                    }
                    crate::types::lemma_key_add_no_dup(key_assoc_keys(s), key);
                }
                es.push((key, value));
            },
        }
        self.entries = es;
    }

    /// The value bound to a key, if any.
    pub fn get(&self, key: &Key) -> (r: Option<&V>)
        ensures
            match r {
                Some(v) => self@.dom().contains(*key) && *v == self@[*key],
                None => !self@.dom().contains(*key),
            },
    {
        proof {
            use_type_invariant(&*self);
            lemma_key_assoc_dom(self.entries@);
        }
        match Self::find_in(&self.entries, key) {
            Some(i) => {
                proof {
                    lemma_key_assoc_at(self.entries@, i as int);
                }
                Some(&self.entries[i].1)
            },
            None => {
                proof {
                    if self@.dom().contains(*key) {
                        let j = choose|j: int|
                            0 <= j < key_assoc_keys(self.entries@).len() && key_assoc_keys(
                                self.entries@,
                            )[j] == *key;
                        assert(self.entries@[j].0 == *key);
                    }
                }
                None
            },
        }
    }
}

} // verus!
