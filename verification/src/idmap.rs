//! A small association map keyed by transaction id, with a `Map` view.
use vstd::prelude::*;

verus! {

/// The map denoted by an association list, later entries winning.
pub open spec fn id_assoc_map<V>(s: Seq<(u64, V)>) -> Map<u64, V>
    decreases s.len(),
{
    if s.len() == 0 {
        Map::empty()
    } else {
        id_assoc_map(s.drop_last()).insert(s.last().0, s.last().1)
    }
}

/// The keys of an association list, in order.
pub open spec fn id_assoc_keys<V>(s: Seq<(u64, V)>) -> Seq<u64> {
    s.map_values(|e: (u64, V)| e.0)
}

/// The domain of the denoted map is the set of listed keys.
pub proof fn lemma_id_assoc_dom<V>(s: Seq<(u64, V)>)
    ensures
        id_assoc_map(s).dom() == id_assoc_keys(s).to_set(),
    decreases s.len(),
{
    if s.len() == 0 {
        assert(id_assoc_map(s).dom() =~= id_assoc_keys(s).to_set());
    } else {
        lemma_id_assoc_dom(s.drop_last());
        assert(id_assoc_keys(s.drop_last()) =~= id_assoc_keys(s).drop_last());
        assert forall|k: u64| id_assoc_map(s).dom().contains(k) implies id_assoc_keys(
            s,
        ).to_set().contains(k) by {
            if k == s.last().0 {
                assert(id_assoc_keys(s)[s.len() - 1] == k);
            } else {
                let i = choose|i: int|
                    0 <= i < id_assoc_keys(s.drop_last()).len() && id_assoc_keys(s.drop_last())[i]
                        == k;
                assert(id_assoc_keys(s)[i] == k);
            }
        }
        assert forall|k: u64| id_assoc_keys(s).to_set().contains(k) implies id_assoc_map(
            s,
        ).dom().contains(k) by {
            let i = choose|i: int| 0 <= i < id_assoc_keys(s).len() && id_assoc_keys(s)[i] == k;
            if i < s.len() - 1 {
                assert(id_assoc_keys(s.drop_last())[i] == k);
            }
        }
        assert(id_assoc_map(s).dom() =~= id_assoc_keys(s).to_set());
    }
}

/// With unique keys, the listed entry gives the value of its key.
pub proof fn lemma_id_assoc_at<V>(s: Seq<(u64, V)>, i: int)
    requires
        id_assoc_keys(s).no_duplicates(),
        0 <= i < s.len(),
    ensures
        id_assoc_map(s).dom().contains(s[i].0),
        id_assoc_map(s)[s[i].0] == s[i].1,
    decreases s.len(),
{
    lemma_id_assoc_dom(s);
    assert(id_assoc_keys(s)[i] == s[i].0);
    if i == s.len() - 1 {
    } else {
        assert(id_assoc_keys(s.drop_last()) =~= id_assoc_keys(s).drop_last());
        lemma_id_assoc_at(s.drop_last(), i);
        assert(id_assoc_keys(s)[i] != id_assoc_keys(s)[s.len() - 1]);
    }
}

/// Updating the entry of a key denotes a map insert.
pub proof fn lemma_id_assoc_update<V>(s: Seq<(u64, V)>, i: int, v: V)
    requires
        id_assoc_keys(s).no_duplicates(),
        0 <= i < s.len(),
    ensures
        id_assoc_map(s.update(i, (s[i].0, v))) == id_assoc_map(s).insert(s[i].0, v),
        id_assoc_keys(s.update(i, (s[i].0, v))) == id_assoc_keys(s),
    decreases s.len(),
{
    let t = s.update(i, (s[i].0, v));
    assert(id_assoc_keys(t) =~= id_assoc_keys(s));
    if i == s.len() - 1 {
        assert(t.drop_last() =~= s.drop_last());
        assert(id_assoc_map(t) =~= id_assoc_map(s).insert(s[i].0, v));
    } else {
        assert(id_assoc_keys(s.drop_last()) =~= id_assoc_keys(s).drop_last());
        lemma_id_assoc_update(s.drop_last(), i, v);
        assert(t.drop_last() =~= s.drop_last().update(i, (s[i].0, v)));
        assert(t.last() == s.last());
        assert(s[i].0 != s.last().0) by {
            assert(id_assoc_keys(s)[i] == s[i].0);
            assert(id_assoc_keys(s)[s.len() - 1] == s.last().0);
        }
        assert(id_assoc_map(s.drop_last()).insert(s[i].0, v).insert(s.last().0, s.last().1)
            =~= id_assoc_map(s.drop_last()).insert(s.last().0, s.last().1).insert(s[i].0, v));
    }
}

/// Removing the entry of a key denotes a map remove.
pub proof fn lemma_id_assoc_remove<V>(s: Seq<(u64, V)>, i: int)
    requires
        id_assoc_keys(s).no_duplicates(),
        0 <= i < s.len(),
    ensures
        id_assoc_map(s.remove(i)) == id_assoc_map(s).remove(s[i].0),
        id_assoc_keys(s.remove(i)) == id_assoc_keys(s).remove(i),
    decreases s.len(),
{
    let t = s.remove(i);
    assert(id_assoc_keys(t) =~= id_assoc_keys(s).remove(i));
    if i == s.len() - 1 {
        assert(t =~= s.drop_last());
        lemma_id_assoc_dom(s.drop_last());
        assert(id_assoc_keys(s.drop_last()) =~= id_assoc_keys(s).drop_last());
        assert(!id_assoc_keys(s.drop_last()).contains(s[i].0)) by {
            if id_assoc_keys(s.drop_last()).contains(s[i].0) {
                let j = choose|j: int|
                    0 <= j < id_assoc_keys(s.drop_last()).len() && id_assoc_keys(s.drop_last())[j]
                        == s[i].0;
                assert(id_assoc_keys(s)[j] == s[i].0);
                assert(id_assoc_keys(s)[i] == s[i].0);
            }
        }
        assert(id_assoc_map(t) =~= id_assoc_map(s).remove(s[i].0));
    } else {
        assert(id_assoc_keys(s.drop_last()) =~= id_assoc_keys(s).drop_last());
        lemma_id_assoc_remove(s.drop_last(), i);
        assert(t.drop_last() =~= s.drop_last().remove(i));
        assert(t.last() == s.last());
        assert(s[i].0 != s.last().0) by {
            assert(id_assoc_keys(s)[i] == s[i].0);
            assert(id_assoc_keys(s)[s.len() - 1] == s.last().0);
        }
        assert(id_assoc_map(t) =~= id_assoc_map(s).remove(s[i].0));
    }
}

/// An association list from transaction id to a value, each id at most once.
#[derive(Debug)]
pub struct IdMap<V> {
    entries: Vec<(u64, V)>,
}

impl<V> IdMap<V> {
    /// Each id occurs at most once.
    #[verifier::type_invariant]
    pub closed spec fn wf(self) -> bool {
        id_assoc_keys(self.entries@).no_duplicates()
    }

    /// The map this list denotes.
    pub closed spec fn view(&self) -> Map<u64, V> {
        id_assoc_map(self.entries@)
    }

    /// The ids in insertion order.
    pub closed spec fn key_order(&self) -> Seq<u64> {
        id_assoc_keys(self.entries@)
    }

    pub fn new() -> (r: IdMap<V>)
        ensures
            r@ == Map::<u64, V>::empty(),
            r.key_order() == Seq::<u64>::empty(),
    {
        let r = IdMap { entries: Vec::new() };
        proof {
            assert(id_assoc_keys(r.entries@) =~= Seq::<u64>::empty());
        }
        r
    }

    fn find_in(es: &Vec<(u64, V)>, id: u64) -> (r: Option<usize>)
        ensures
            match r {
                Some(i) => i < es@.len() && es@[i as int].0 == id,
                None => forall|j: int| 0 <= j < es@.len() ==> es@[j].0 != id,
            },
    {
        let mut i: usize = 0;
        while i < es.len()
            invariant
                0 <= i <= es@.len(),
                forall|j: int| 0 <= j < i ==> es@[j].0 != id,
            decreases es@.len() - i,
        {
            if es[i].0 == id {
                return Some(i);
            }
            i += 1;
        }
        None
    }

    /// Binds an id to a value, replacing any earlier binding.
    pub fn insert(&mut self, id: u64, value: V)
        ensures
            final(self)@ == old(self)@.insert(id, value),
            final(self).key_order() == if old(self)@.dom().contains(id) {
                old(self).key_order()
            } else {
                old(self).key_order().push(id)
            },
            !old(self)@.dom().contains(id)
                ==> final(self).entry_seq() == old(self).entry_seq().push((id, value)),
            old(self)@.dom().contains(id) ==> exists|i: int|
                0 <= i < old(self).entry_seq().len() && #[trigger] old(self).entry_seq()[i].0 == id
                    && final(self).entry_seq() == old(self).entry_seq().update(i, (id, value)),
    {
        proof {
            use_type_invariant(&*self);
            lemma_id_assoc_dom(self.entries@);
        }
        let ghost s = self.entries@;
        let ghost mut wi: int = 0;
        let mut es: Vec<(u64, V)> = Vec::new();
        core::mem::swap(&mut self.entries, &mut es);
        match Self::find_in(&es, id) {
            Some(i) => {
                proof {
                    lemma_id_assoc_update(s, i as int, value);
                    assert(id_assoc_keys(s)[i as int] == id);
                    wi = i as int;
                }
                es[i] = (id, value);
                proof {
                    assert(0 <= wi < s.len() && s[wi].0 == id);
                    assert(es@ == s.update(wi, (id, value)));
                }
            },
            None => {
                proof {
                    assert(id_assoc_keys(s.push((id, value))) =~= id_assoc_keys(s).push(id));
                    assert(s.push((id, value)).drop_last() =~= s);
                    lemma_id_assoc_dom(s);
                    if id_assoc_keys(s).contains(id) {
                        let j = choose|j: int|
                            0 <= j < id_assoc_keys(s).len() && id_assoc_keys(s)[j] == id;
                        assert(s[j].0 == id);
                    }
                    assert(!id_assoc_map(s).dom().contains(id));
                    assert forall|i2: int, j2: int|
                        0 <= i2 < j2 < id_assoc_keys(s).push(id).len() implies id_assoc_keys(
                        s,
                    ).push(id)[i2] != id_assoc_keys(s).push(id)[j2] by {
                        if j2 == id_assoc_keys(s).len() {
                            assert(id_assoc_keys(s).contains(id_assoc_keys(s)[i2]));
                        }
                    }
                }
                es.push((id, value));
                proof {
                    assert(es@ == s.push((id, value)));
                }
            },
        }
        self.entries = es;
        proof {
            if old(self)@.dom().contains(id) {
                assert(0 <= wi < s.len() && s[wi].0 == id && self.entries@ == s.update(
                    wi,
                    (id, value),
                ));
                assert(s == old(self).entry_seq());
                assert(self.entries@ == self.entry_seq());
                assert(exists|i: int|
                    0 <= i < old(self).entry_seq().len() && #[trigger] old(self).entry_seq()[i].0
                        == id && self.entry_seq() == old(self).entry_seq().update(i, (id, value)));
            }
        }
    }

    /// The value bound to an id, if any.
    pub fn get(&self, id: u64) -> (r: Option<&V>)
        ensures
            match r {
                Some(v) => self@.dom().contains(id) && *v == self@[id],
                None => !self@.dom().contains(id),
            },
    {
        proof {
            use_type_invariant(&*self);
            lemma_id_assoc_dom(self.entries@);
        }
        match Self::find_in(&self.entries, id) {
            Some(i) => {
                proof {
                    lemma_id_assoc_at(self.entries@, i as int);
                }
                Some(&self.entries[i].1)
            },
            None => {
                proof {
                    if self@.dom().contains(id) {
                        let j = choose|j: int|
                            0 <= j < id_assoc_keys(self.entries@).len() && id_assoc_keys(
                                self.entries@,
                            )[j] == id;
                        assert(self.entries@[j].0 == id);
                    }
                }
                None
            },
        }
    }

    /// Whether an id is bound.
    pub fn contains_key(&self, id: u64) -> (r: bool)
        ensures
            r == self@.dom().contains(id),
    {
        match self.get(id) {
            Some(_) => true,
            None => false,
        }
    }

    /// Removes and returns the value bound to an id.
    pub fn take(&mut self, id: u64) -> (r: Option<V>)
        ensures
            match r {
                Some(v) => old(self)@.dom().contains(id) && v == old(self)@[id] && final(self)@
                    == old(self)@.remove(id),
                None => !old(self)@.dom().contains(id) && final(self)@ == old(self)@,
            },
    {
        proof {
            use_type_invariant(&*self);
            lemma_id_assoc_dom(self.entries@);
        }
        let ghost s = self.entries@;
        let mut es: Vec<(u64, V)> = Vec::new();
        core::mem::swap(&mut self.entries, &mut es);
        let r = match Self::find_in(&es, id) {
            Some(i) => {
                proof {
                    lemma_id_assoc_at(s, i as int);
                    lemma_id_assoc_remove(s, i as int);
                }
                let v = es.remove(i);
                proof {
                    assert(id_assoc_keys(s).remove(i as int).no_duplicates()) by {
                        assert forall|a: int, b: int|
                            0 <= a < b < id_assoc_keys(s).remove(i as int).len() implies
                            id_assoc_keys(s).remove(i as int)[a] != id_assoc_keys(s).remove(
                            i as int,
                        )[b] by {
                            let ks = id_assoc_keys(s);
                            if a < i && b < i {
                            } else if a < i {
                                assert(ks.remove(i as int)[b] == ks[b + 1]);
                            } else {
                                assert(ks.remove(i as int)[a] == ks[a + 1]);
                                assert(ks.remove(i as int)[b] == ks[b + 1]);
                            }
                        }
                    }
                }
                Some(v.1)
            },
            None => {
                proof {
                    if self@.dom().contains(id) {
                        let j = choose|j: int|
                            0 <= j < id_assoc_keys(s).len() && id_assoc_keys(s)[j] == id;
                        assert(s[j].0 == id);
                    }
                }
                None
            },
        };
        self.entries = es;
        r
    }

    /// The entries, in insertion order.
    pub closed spec fn entry_seq(&self) -> Seq<(u64, V)> {
        self.entries@
    }

    /// The number of entries; the entry list denotes the map and holds each
    /// id once.
    pub fn entry_count(&self) -> (r: usize)
        ensures
            r == self.entry_seq().len(),
            self@ == id_assoc_map(self.entry_seq()),
            self.key_order() == id_assoc_keys(self.entry_seq()),
            id_assoc_keys(self.entry_seq()).no_duplicates(),
    {
        proof {
            use_type_invariant(&*self);
        }
        self.entries.len()
    }

    /// The entry at a position.
    pub fn entry_at(&self, i: usize) -> (r: &(u64, V))
        requires
            i < self.entry_seq().len(),
        ensures
            *r == self.entry_seq()[i as int],
    {
        &self.entries[i]
    }

    /// The number of bound ids.
    pub fn len(&self) -> (r: usize)
        ensures
            r == self@.dom().len(),
    {
        proof {
            use_type_invariant(&*self);
            lemma_id_assoc_dom(self.entries@);
            id_assoc_keys(self.entries@).unique_seq_to_set();
        }
        self.entries.len()
    }

    /// Removes every binding.
    pub fn clear(&mut self)
        ensures
            final(self)@ == Map::<u64, V>::empty(),
            final(self).key_order() == Seq::<u64>::empty(),
    {
        self.entries = Vec::new();
        proof {
            assert(id_assoc_keys(self.entries@) =~= Seq::<u64>::empty());
        }
    }
}

/// Whether an id occurs in a list.
pub fn id_list_contains(v: &Vec<u64>, id: u64) -> (r: bool)
    ensures
        r == v@.contains(id),
{
    let mut i: usize = 0;
    while i < v.len()
        invariant
            0 <= i <= v@.len(),
            forall|j: int| 0 <= j < i ==> v@[j] != id,
        decreases v@.len() - i,
    {
        if v[i] == id {
            return true;
        }
        i += 1;
    }
    false
}

/// A copy of a list of ids.
pub fn clone_id_list(v: &Vec<u64>) -> (r: Vec<u64>)
    ensures
        r@ == v@,
{
    let mut out: Vec<u64> = Vec::new();
    let mut i: usize = 0;
    while i < v.len()
        invariant
            0 <= i <= v@.len(),
            out@ == v@.take(i as int),
        decreases v@.len() - i,
    {
        out.push(v[i]);
        proof {
            assert(v@.take(i + 1) =~= v@.take(i as int).push(v@[i as int]));
        }
        i += 1;
    }
    proof {
        assert(v@.take(v@.len() as int) =~= v@);
    }
    out
}

} // verus!
