//! The conflict graph: vertices are transaction ids, edges record pairwise
//! conflict of estimated access sets.
use vstd::prelude::*;
use crate::idmap::IdMap;
use crate::idmap::clone_id_list;
use crate::idmap::id_list_contains;
use crate::keymap::KeyMap;
use crate::types::AccessSets;
use crate::types::Key;
use crate::types::sets_conflict;

verus! {

/// An undirected graph on transaction ids, with each node's access sets.
#[derive(Debug)]
pub struct ConflictGraph {
    nodes: IdMap<AccessSets>,
    edges: IdMap<Vec<u64>>,
}

/// The sum of the adjacency-list lengths of an entry list.
pub open spec fn deg_sum(s: Seq<(u64, Vec<u64>)>) -> nat
    decreases s.len(),
{
    if s.len() == 0 {
        0nat
    } else {
        deg_sum(s.drop_last()) + s.last().1@.len()
    }
}

impl ConflictGraph {
    /// The map from node id to its access sets.
    pub closed spec fn node_map(&self) -> Map<u64, AccessSets> {
        self.nodes@
    }

    /// The map from node id to its adjacency list.
    pub closed spec fn edge_map(&self) -> Map<u64, Vec<u64>> {
        self.edges@
    }

    /// Whether an edge joins `u` to `v`.
    pub open spec fn adjacent(&self, u: u64, v: u64) -> bool {
        self.edge_map().dom().contains(u) && self.edge_map()[u]@.contains(v)
    }

    /// The sum of all node degrees; twice the number of edges.
    pub closed spec fn degree_sum(&self) -> nat {
        deg_sum(self.edges.entry_seq())
    }

    /// Adjacency is symmetric and irreflexive, lists hold no duplicates,
    /// and every endpoint is a node.
    pub open spec fn wf(&self) -> bool {
        &&& forall|u: u64|
            #[trigger] self.edge_map().dom().contains(u) ==> self.node_map().dom().contains(u)
                && self.edge_map()[u]@.no_duplicates()
        &&& forall|u: u64, v: u64|
            #[trigger] self.adjacent(u, v) ==> u != v && self.node_map().dom().contains(v)
                && self.adjacent(v, u)
    }

    pub fn new() -> (g: ConflictGraph)
        ensures
            g.wf(),
            g.node_map() == Map::<u64, AccessSets>::empty(),
            g.edge_map() == Map::<u64, Vec<u64>>::empty(),
            forall|u: u64, v: u64| !g.adjacent(u, v),
    {
        ConflictGraph { nodes: IdMap::new(), edges: IdMap::new() }
    }

    /// Adds a node with its access sets; its adjacency starts empty.
    pub fn add_node(&mut self, tx_id: u64, access_sets: AccessSets)
        requires
            old(self).wf(),
        ensures
            final(self).wf(),
            final(self).node_map() == old(self).node_map().insert(tx_id, access_sets),
            forall|u: u64, v: u64| final(self).adjacent(u, v) == old(self).adjacent(u, v),
            final(self).edge_map().dom() == old(self).edge_map().dom().insert(tx_id),
            final(self).degree_sum() == old(self).degree_sum() || old(
                self,
            ).edge_map().dom().contains(tx_id),
    {
        self.nodes.insert(tx_id, access_sets);
        let ghost before = self.edges.entry_seq();
        if !self.edges.contains_key(tx_id) {
            let empty: Vec<u64> = Vec::new();
            self.edges.insert(tx_id, empty);
            proof {
                assert(self.edges.entry_seq().drop_last() =~= old(self).edges.entry_seq());
                assert(deg_sum(self.edges.entry_seq()) == deg_sum(old(self).edges.entry_seq()));
                assert forall|u: u64, v: u64| self.adjacent(u, v) == old(self).adjacent(u, v) by {
                    if u == tx_id {
                        assert(!old(self).edge_map().dom().contains(u));
                        assert(self.edge_map()[u]@.len() == 0);
                    }
                }
                assert forall|u: u64| #[trigger] self.edge_map().dom().contains(u) implies
                    self.node_map().dom().contains(u) && self.edge_map()[u]@.no_duplicates() by {
                    if u != tx_id {
                        assert(old(self).edge_map().dom().contains(u));
                        assert(self.edge_map()[u] == old(self).edge_map()[u]);
                    } else {
                        assert(self.edge_map()[u]@.len() == 0);
                    }
                }
                assert forall|u: u64, v: u64| #[trigger] self.adjacent(u, v) implies u != v
                    && self.node_map().dom().contains(v) && self.adjacent(v, u) by {
                    assert(old(self).adjacent(u, v));
                }
            }
        } else {
            proof {
                assert(self.edge_map().dom() =~= old(self).edge_map().dom().insert(tx_id));
                assert forall|u: u64| #[trigger] self.edge_map().dom().contains(u) implies
                    self.node_map().dom().contains(u) && self.edge_map()[u]@.no_duplicates() by {
                    assert(old(self).edge_map().dom().contains(u));
                    assert(self.edge_map()[u] == old(self).edge_map()[u]);
                }
                assert forall|u: u64, v: u64| #[trigger] self.adjacent(u, v) implies u != v
                    && self.node_map().dom().contains(v) && self.adjacent(v, u) by {
                    assert(old(self).adjacent(u, v));
                }
            }
        }
    }

    /// Records a conflict between two distinct nodes; the edge goes both
    /// ways.
    pub fn add_edge(&mut self, tx1_id: u64, tx2_id: u64)
        requires
            old(self).wf(),
            tx1_id != tx2_id,
            old(self).node_map().dom().contains(tx1_id),
            old(self).node_map().dom().contains(tx2_id),
        ensures
            final(self).wf(),
            final(self).node_map() == old(self).node_map(),
            forall|u: u64, v: u64|
                final(self).adjacent(u, v) <==> (old(self).adjacent(u, v) || (u == tx1_id && v
                    == tx2_id) || (u == tx2_id && v == tx1_id)),
    {
        let mut l1 = match self.edges.get(tx1_id) {
            Some(l) => clone_id_list(l),
            None => Vec::new(),
        };
        if !id_list_contains(&l1, tx2_id) {
            l1.push(tx2_id);
        }
        let mut l2 = match self.edges.get(tx2_id) {
            Some(l) => clone_id_list(l),
            None => Vec::new(),
        };
        if !id_list_contains(&l2, tx1_id) {
            l2.push(tx1_id);
        }
        let ghost old_l1 = if old(self).edge_map().dom().contains(tx1_id) {
            old(self).edge_map()[tx1_id]@
        } else {
            Seq::<u64>::empty()
        };
        let ghost old_l2 = if old(self).edge_map().dom().contains(tx2_id) {
            old(self).edge_map()[tx2_id]@
        } else {
            Seq::<u64>::empty()
        };
        proof {
            assert forall|x: u64| l1@.contains(x) implies old_l1.contains(x) || x == tx2_id by {}
            assert forall|x: u64| old_l1.contains(x) implies l1@.contains(x) by {
                if !old_l1.contains(tx2_id) {
                    let j = choose|j: int| 0 <= j < old_l1.len() && old_l1[j] == x;
                    assert(l1@[j] == x);
                }
            }
            assert(l1@.contains(tx2_id)) by {
                if !old_l1.contains(tx2_id) {
                    assert(l1@.last() == tx2_id);
                }
            }
            assert(l1@.no_duplicates()) by {
                if !old_l1.contains(tx2_id) {
                    assert forall|a: int, b: int| 0 <= a < b < l1@.len() implies l1@[a] != l1@[b] by {
                        if b == l1@.len() - 1 {
                            assert(old_l1.contains(l1@[a]));
                        }
                    }
                }
            }
            assert forall|x: u64| l2@.contains(x) implies old_l2.contains(x) || x == tx1_id by {}
            assert forall|x: u64| old_l2.contains(x) implies l2@.contains(x) by {
                if !old_l2.contains(tx1_id) {
                    let j = choose|j: int| 0 <= j < old_l2.len() && old_l2[j] == x;
                    assert(l2@[j] == x);
                }
            }
            assert(l2@.contains(tx1_id)) by {
                if !old_l2.contains(tx1_id) {
                    assert(l2@.last() == tx1_id);
                }
            }
            assert(l2@.no_duplicates()) by {
                if !old_l2.contains(tx1_id) {
                    assert forall|a: int, b: int| 0 <= a < b < l2@.len() implies l2@[a] != l2@[b] by {
                        if b == l2@.len() - 1 {
                            assert(old_l2.contains(l2@[a]));
                        }
                    }
                }
            }
        }
        self.edges.insert(tx1_id, l1);
        self.edges.insert(tx2_id, l2);
        proof {
            assert forall|u: u64, v: u64|
                self.adjacent(u, v) <==> (old(self).adjacent(u, v) || (u == tx1_id && v == tx2_id)
                    || (u == tx2_id && v == tx1_id)) by {
                if u == tx1_id {
                    assert(self.edge_map()[u] == l1);
                } else if u == tx2_id {
                    assert(self.edge_map()[u] == l2);
                }
            }
            assert forall|u: u64, v: u64| #[trigger] self.adjacent(u, v) implies u != v
                && self.node_map().dom().contains(v) && self.adjacent(v, u) by {
                if !(old(self).adjacent(u, v)) {
                    assert((u == tx1_id && v == tx2_id) || (u == tx2_id && v == tx1_id));
                }
            }
        }
    }

    /// Whether the two nodes are joined by an edge.
    pub fn has_conflict(&self, tx1_id: u64, tx2_id: u64) -> (r: bool)
        ensures
            r == self.adjacent(tx1_id, tx2_id),
    {
        match self.edges.get(tx1_id) {
            Some(l) => id_list_contains(l, tx2_id),
            None => false,
        }
    }

    /// The nodes joined to this one, as a fresh list.
    pub fn get_neighbors(&self, tx_id: u64) -> (r: Vec<u64>)
        ensures
            r@ == if self.edge_map().dom().contains(tx_id) {
                self.edge_map()[tx_id]@
            } else {
                Seq::<u64>::empty()
            },
            forall|v: u64| r@.contains(v) <==> self.adjacent(tx_id, v),
    {
        match self.edges.get(tx_id) {
            Some(l) => clone_id_list(l),
            None => Vec::new(),
        }
    }

    /// The access sets recorded for a node.
    pub fn get_access_sets(&self, tx_id: u64) -> (r: Option<&AccessSets>)
        ensures
            match r {
                Some(s) => self.node_map().dom().contains(tx_id) && *s == self.node_map()[tx_id],
                None => !self.node_map().dom().contains(tx_id),
            },
    {
        self.nodes.get(tx_id)
    }

    /// The set of edges, as unordered adjacent pairs written low id first.
    pub open spec fn edge_set(&self) -> Set<(u64, u64)> {
        Set::new(|p: (u64, u64)| p.0 < p.1 && self.adjacent(p.0, p.1))
    }

    /// The number of edges: the adjacent unordered pairs, each counted
    /// once from its lower endpoint.
    #[verifier::rlimit(100)]
    #[verifier::spinoff_prover]
    pub fn edge_count(&self) -> (r: usize)
        requires
            self.wf(),
        ensures
            self.edge_set().finite(),
            self.edge_set().len() <= usize::MAX ==> r == self.edge_set().len(),
    {
        let n = self.edges.entry_count();
        let mut count: u128 = 0;
        let ghost mut seen: Set<(u64, u64)> = Set::<(u64, u64)>::empty();
        let mut i: usize = 0;
        while i < n
            invariant
                0 <= i <= n,
                self.wf(),
                n == self.edges.entry_seq().len(),
                self.edge_map() == crate::idmap::id_assoc_map(self.edges.entry_seq()),
                crate::idmap::id_assoc_keys(self.edges.entry_seq()).no_duplicates(),
                seen.finite(),
                count == seen.len(),
                count <= i * 0x1_0000_0000_0000_0000,
                forall|p: (u64, u64)|
                    #[trigger] seen.contains(p) ==> self.edge_set().contains(p) && exists|e: int|
                        0 <= e < i && (#[trigger] self.edges.entry_seq()[e]).0 == p.0,
                forall|p: (u64, u64)|
                    self.edge_set().contains(p) && (exists|e: int|
                        0 <= e < i && (#[trigger] self.edges.entry_seq()[e]).0 == p.0)
                        ==> seen.contains(p),
            decreases n - i,
        {
            let e = self.edges.entry_at(i);
            let u = e.0;
            let ghost es = self.edges.entry_seq();
            proof {
                crate::idmap::lemma_id_assoc_at(es, i as int);
                assert(self.edge_map().dom().contains(u));
                assert(self.edge_map()[u] == es[i as int].1);
            }
            let l = &e.1;
            let m = l.len();
            let mut j: usize = 0;
            while j < m
                invariant
                    0 <= j <= m,
                    0 <= i < n,
                    self.wf(),
                    n == es.len(),
                    es == self.edges.entry_seq(),
                    self.edge_map() == crate::idmap::id_assoc_map(es),
                    crate::idmap::id_assoc_keys(es).no_duplicates(),
                    u == es[i as int].0,
                    l@ == es[i as int].1@,
                    m == l@.len(),
                    self.edge_map().dom().contains(u),
                    self.edge_map()[u] == es[i as int].1,
                    seen.finite(),
                    count == seen.len(),
                    count <= i * 0x1_0000_0000_0000_0000 + j,
                    forall|p: (u64, u64)|
                        #[trigger] seen.contains(p) ==> self.edge_set().contains(p) && (exists|
                            e2: int,
                        | 0 <= e2 < i && (#[trigger] es[e2]).0 == p.0) || (p.0 == u && exists|
                            j2: int,
                        | 0 <= j2 < j && l@[j2] == p.1),
                    forall|p: (u64, u64)| #[trigger] seen.contains(p) ==> self.edge_set().contains(p),
                    forall|p: (u64, u64)|
                        self.edge_set().contains(p) && ((exists|e2: int|
                            0 <= e2 < i && (#[trigger] es[e2]).0 == p.0) || (p.0 == u && exists|
                            j2: int,
                        | 0 <= j2 < j && l@[j2] == p.1)) ==> seen.contains(p),
                decreases m - j,
            {
                let v = l[j];
                if u < v {
                    proof {
                        let p = (u, v);
                        assert(self.edge_map()[u]@[j as int] == v);
                        assert(self.edge_map()[u]@.contains(v));
                        assert(self.adjacent(u, v));
                        assert(self.edge_set().contains(p));
                        assert(!seen.contains(p)) by {
                            if seen.contains(p) {
                                if exists|e2: int| 0 <= e2 < i && (#[trigger] es[e2]).0 == p.0 {
                                    let e2 = choose|e2: int|
                                        0 <= e2 < i && (#[trigger] es[e2]).0 == p.0;
                                    assert(crate::idmap::id_assoc_keys(es)[e2] == u);
                                    assert(crate::idmap::id_assoc_keys(es)[i as int] == u);
                                } else {
                                    let j2 = choose|j2: int| 0 <= j2 < j && l@[j2] == p.1;
                                    assert(es[i as int].1@.no_duplicates());
                                    assert(l@[j2] == l@[j as int]);
                                }
                            }
                        }
                        assert(seen.insert(p).len() == seen.len() + 1);
                        seen = seen.insert(p);
                        assert(i + 2 <= 0x1_0000_0000_0000_0000 && j + 2
                            <= 0x1_0000_0000_0000_0000) by {
                            assert(i < n <= usize::MAX);
                            assert(j < m <= usize::MAX);
                        }
                        assert(count + 1 < 0x1_0000_0000_0000_0000 * 0x1_0000_0000_0000_0000)
                            by (nonlinear_arith)
                            requires
                                count <= i * 0x1_0000_0000_0000_0000 + j,
                                0 <= i && i + 2 <= 0x1_0000_0000_0000_0000,
                                0 <= j && j + 2 <= 0x1_0000_0000_0000_0000,
                        ;
                    }
                    count = count + 1;
                    proof {
                        assert forall|p2: (u64, u64)|
                            self.edge_set().contains(p2) && ((exists|e2: int|
                                0 <= e2 < i && (#[trigger] es[e2]).0 == p2.0) || (p2.0 == u
                                && exists|j2: int| 0 <= j2 < j + 1 && l@[j2] == p2.1)) implies
                            seen.contains(p2) by {
                            if p2 == (u, v) {
                            } else if p2.0 == u && (exists|j2: int|
                                0 <= j2 < j + 1 && l@[j2] == p2.1) && !(exists|e2: int|
                                0 <= e2 < i && (#[trigger] es[e2]).0 == p2.0) {
                                let j2 = choose|j2: int| 0 <= j2 < j + 1 && l@[j2] == p2.1;
                                if j2 == j {
                                    assert(p2.1 == v);
                                } else {
                                    assert(0 <= j2 < j && l@[j2] == p2.1);
                                }
                            }
                        }
                    }
                } else {
                    proof {
                        assert forall|p2: (u64, u64)|
                            self.edge_set().contains(p2) && ((exists|e2: int|
                                0 <= e2 < i && (#[trigger] es[e2]).0 == p2.0) || (p2.0 == u
                                && exists|j2: int| 0 <= j2 < j + 1 && l@[j2] == p2.1)) implies
                            seen.contains(p2) by {
                            if p2.0 == u && (exists|j2: int| 0 <= j2 < j + 1 && l@[j2] == p2.1)
                                && !(exists|e2: int|
                                0 <= e2 < i && (#[trigger] es[e2]).0 == p2.0) {
                                let j2 = choose|j2: int| 0 <= j2 < j + 1 && l@[j2] == p2.1;
                                if j2 == j {
                                    assert(p2.1 == v);
                                    assert(p2.0 < p2.1);
                                } else {
                                    assert(0 <= j2 < j && l@[j2] == p2.1);
                                }
                            }
                        }
                    }
                }
                j += 1;
            }
            proof {
                assert forall|p: (u64, u64)|
                    self.edge_set().contains(p) && (exists|e2: int|
                        0 <= e2 < i + 1 && (#[trigger] es[e2]).0 == p.0) implies seen.contains(
                    p,
                ) by {
                    let e2 = choose|e2: int| 0 <= e2 < i + 1 && (#[trigger] es[e2]).0 == p.0;
                    if e2 == i {
                        assert(p.0 == u);
                        assert(self.adjacent(p.0, p.1));
                        assert(self.edge_map()[u]@.contains(p.1));
                        let j2 = choose|j2: int| 0 <= j2 < l@.len() && l@[j2] == p.1;
                    }
                }
                assert forall|p: (u64, u64)| #[trigger] seen.contains(p) implies
                    self.edge_set().contains(p) && exists|e2: int|
                    0 <= e2 < i + 1 && (#[trigger] es[e2]).0 == p.0 by {}
                assert(count <= (i + 1) * 0x1_0000_0000_0000_0000) by (nonlinear_arith)
                    requires
                        count <= i * 0x1_0000_0000_0000_0000 + m,
                        m < 0x1_0000_0000_0000_0000,
                ;
            }
            i += 1;
        }
        proof {
            // everything counted, and every edge counted
            assert(seen =~= self.edge_set()) by {
                assert forall|p: (u64, u64)| self.edge_set().contains(p) implies seen.contains(
                    p,
                ) by {
                    assert(self.adjacent(p.0, p.1));
                    assert(self.edge_map().dom().contains(p.0));
                    crate::idmap::lemma_id_assoc_dom(self.edges.entry_seq());
                    assert(crate::idmap::id_assoc_keys(self.edges.entry_seq()).to_set().contains(
                        p.0,
                    ));
                    let e2 = choose|e2: int|
                        0 <= e2 < crate::idmap::id_assoc_keys(self.edges.entry_seq()).len()
                            && crate::idmap::id_assoc_keys(self.edges.entry_seq())[e2] == p.0;
                    assert(self.edges.entry_seq()[e2].0 == p.0);
                }
            }
        }
        if count > usize::MAX as u128 {
            usize::MAX
        } else {
            count as usize
        }
    }

    /// The degree sum as a machine integer.
    fn degree_total(&self) -> (r: u128)
        ensures
            r == self.degree_sum(),
    {
        let n = self.edges.entry_count();
        let mut total: u128 = 0;
        let mut i: usize = 0;
        proof {
            assert(deg_sum(self.edges.entry_seq().take(0)) == 0) by {
                assert(self.edges.entry_seq().take(0).len() == 0);
            }
        }
        while i < n
            invariant
                0 <= i <= n,
                n == self.edges.entry_seq().len(),
                total == deg_sum(self.edges.entry_seq().take(i as int)),
                total <= i * 0x1_0000_0000_0000_0000,
            decreases n - i,
        {
            let e = self.edges.entry_at(i);
            let l = e.1.len();
            proof {
                let es = self.edges.entry_seq();
                assert(es.take(i + 1).drop_last() =~= es.take(i as int));
                assert(es.take(i + 1).last() == es[i as int]);
                assert(l < 0x1_0000_0000_0000_0000);
                assert(total + l <= i * 0x1_0000_0000_0000_0000 + 0x1_0000_0000_0000_0000);
                assert(i * 0x1_0000_0000_0000_0000 + 0x1_0000_0000_0000_0000 == (i + 1)
                    * 0x1_0000_0000_0000_0000) by (nonlinear_arith);
                assert((i + 1) * 0x1_0000_0000_0000_0000 <= 0x1_0000_0000_0000_0000
                    * 0x1_0000_0000_0000_0000) by (nonlinear_arith)
                    requires 0 <= i < 0x1_0000_0000_0000_0000,
                ;
            }
            total = total + (l as u128);
            i += 1;
        }
        proof {
            assert(self.edges.entry_seq().take(n as int) =~= self.edges.entry_seq());
        }
        total
    }

    /// The degree sum and twice the number of unordered node pairs: the
    /// first never exceeds the second, so the conflict rate, their
    /// quotient, lies between zero and one.
    pub fn conflict_rate_parts(&self) -> (r: (u128, u128))
        requires
            self.wf(),
        ensures
            r.0 == self.degree_sum(),
            r.1 == self.node_map().dom().len() * (self.node_map().dom().len() - 1),
            r.0 <= r.1,
    {
        let total = self.degree_total();
        let ne = self.edges.entry_count();
        let nn = self.nodes.entry_count();
        proof {
            let es = self.edges.entry_seq();
            let dom = self.node_map().dom();
            crate::idmap::lemma_id_assoc_dom(self.nodes.entry_seq());
            vstd::seq_lib::seq_to_set_is_finite::<u64>(crate::idmap::id_assoc_keys(
                self.nodes.entry_seq(),
            ));
            assert(dom.finite());
            assert forall|i: int| 0 <= i < es.len() implies dom.contains((#[trigger] es[i]).0)
                && es[i].1@.no_duplicates() && (forall|v: u64|
                #[trigger] es[i].1@.contains(v) ==> dom.contains(v) && v != es[i].0) by {
                crate::idmap::lemma_id_assoc_at(es, i);
                assert(self.edge_map().dom().contains(es[i].0));
                assert(self.edge_map()[es[i].0] == es[i].1);
                assert forall|v: u64| #[trigger] es[i].1@.contains(v) implies dom.contains(v) && v
                    != es[i].0 by {
                    assert(self.adjacent(es[i].0, v));
                }
            }
            lemma_deg_sum_bound(es, dom);
            let esl = es.len() as int;
            let d = dom.len() as int;
            if d >= 1 {
                assert(esl * (d - 1) <= d * (d - 1)) by (nonlinear_arith)
                    requires esl <= d && d >= 1,
                ;
            } else {
                assert(esl == 0);
                assert(deg_sum(es) <= 0);
            }
            assert(deg_sum(es) <= dom.len() * (dom.len() - 1));
        }
        let n = self.nodes.len() as u128;
        proof {
            assert(n < 0x1_0000_0000_0000_0000);
            assert(n * (n - 1) < 0x1_0000_0000_0000_0000 * 0x1_0000_0000_0000_0000)
                by (nonlinear_arith)
                requires 0 <= n < 0x1_0000_0000_0000_0000,
            ;
        }
        if n == 0 {
            proof {
                assert(self.node_map().dom().len() == 0);
                assert(self.node_map().dom().len() * (self.node_map().dom().len() - 1) == 0);
                assert(self.degree_sum() <= 0);
            }
            (total, 0)
        } else {
            proof {
                let d = self.node_map().dom().len();
                assert(n == d);
                assert(n * (n - 1) == d * (d - 1)) by (nonlinear_arith)
                    requires n == d && n >= 1,
                ;
            }
            (total, n * (n - 1))
        }
    }


    /// The number of nodes.
    pub fn node_count(&self) -> (r: usize)
        ensures
            r == self.node_map().dom().len(),
    {
        self.nodes.len()
    }

    /// Every node id, each exactly once.
    pub fn get_all_tx_ids(&self) -> (r: Vec<u64>)
        ensures
            r@.no_duplicates(),
            r@.to_set() == self.node_map().dom(),
    {
        let n = self.nodes.entry_count();
        let mut out: Vec<u64> = Vec::new();
        let mut i: usize = 0;
        while i < n
            invariant
                0 <= i <= n,
                n == self.nodes.entry_seq().len(),
                self.nodes@ == crate::idmap::id_assoc_map(self.nodes.entry_seq()),
                crate::idmap::id_assoc_keys(self.nodes.entry_seq()).no_duplicates(),
                out@ == crate::idmap::id_assoc_keys(self.nodes.entry_seq()).take(i as int),
            decreases n - i,
        {
            let e = self.nodes.entry_at(i);
            out.push(e.0);
            proof {
                let ks = crate::idmap::id_assoc_keys(self.nodes.entry_seq());
                assert(ks.take(i + 1) =~= ks.take(i as int).push(ks[i as int]));
            }
            i += 1;
        }
        proof {
            let ks = crate::idmap::id_assoc_keys(self.nodes.entry_seq());
            assert(ks.take(ks.len() as int) =~= ks);
            crate::idmap::lemma_id_assoc_dom(self.nodes.entry_seq());
        }
        out
    }
}

/// Whether a pair of access sets touches a key by read or write.
pub open spec fn touches(a: AccessSets, k: Key) -> bool {
    a.reads@.contains(k) || a.writes@.contains(k)
}

/// The ids of an input list, in order.
pub open spec fn input_ids(s: Seq<(u64, AccessSets)>) -> Seq<u64> {
    s.map_values(|e: (u64, AccessSets)| e.0)
}

/// Whether the input holds two distinct entries with these ids whose sets
/// conflict.
pub open spec fn pair_conflicts(s: Seq<(u64, AccessSets)>, u: u64, v: u64) -> bool {
    exists|i: int, j: int|
        0 <= i < s.len() && 0 <= j < s.len() && i != j && (#[trigger] s[i]).0 == u && (
        #[trigger] s[j]).0 == v && sets_conflict(
            s[i].1.read_set(),
            s[i].1.write_set(),
            s[j].1.read_set(),
            s[j].1.write_set(),
        )
}

/// Two conflicting pairs of sets share a touched key.
pub proof fn lemma_conflict_shares_key(a: AccessSets, b: AccessSets)
    requires
        sets_conflict(a.read_set(), a.write_set(), b.read_set(), b.write_set()),
    ensures
        exists|k: Key| #[trigger] touches(a, k) && touches(b, k),
{
    if crate::types::sets_intersect(a.write_set(), b.write_set()) {
        let k = choose|k: Key| a.write_set().contains(k) && b.write_set().contains(k);
        assert(touches(a, k) && touches(b, k));
    } else if crate::types::sets_intersect(a.write_set(), b.read_set()) {
        let k = choose|k: Key| a.write_set().contains(k) && b.read_set().contains(k);
        assert(touches(a, k) && touches(b, k));
    } else {
        let k = choose|k: Key| a.read_set().contains(k) && b.write_set().contains(k);
        assert(touches(a, k) && touches(b, k));
    }
}

/// The conflict predicate is symmetric.
pub proof fn lemma_conflict_sym(a: AccessSets, b: AccessSets)
    ensures
        sets_conflict(a.read_set(), a.write_set(), b.read_set(), b.write_set()) == sets_conflict(
            b.read_set(),
            b.write_set(),
            a.read_set(),
            a.write_set(),
        ),
{
    let ar = a.read_set();
    let aw = a.write_set();
    let br = b.read_set();
    let bw = b.write_set();
    assert(crate::types::sets_intersect(aw, bw) == crate::types::sets_intersect(bw, aw)) by {
        if crate::types::sets_intersect(aw, bw) {
            let k = choose|k: Key| aw.contains(k) && bw.contains(k);
            assert(bw.contains(k) && aw.contains(k));
        }
        if crate::types::sets_intersect(bw, aw) {
            let k = choose|k: Key| bw.contains(k) && aw.contains(k);
            assert(aw.contains(k) && bw.contains(k));
        }
    }
    assert(crate::types::sets_intersect(aw, br) == crate::types::sets_intersect(br, aw)) by {
        if crate::types::sets_intersect(aw, br) {
            let k = choose|k: Key| aw.contains(k) && br.contains(k);
            assert(br.contains(k) && aw.contains(k));
        }
        if crate::types::sets_intersect(br, aw) {
            let k = choose|k: Key| br.contains(k) && aw.contains(k);
            assert(aw.contains(k) && br.contains(k));
        }
    }
    assert(crate::types::sets_intersect(ar, bw) == crate::types::sets_intersect(bw, ar)) by {
        if crate::types::sets_intersect(ar, bw) {
            let k = choose|k: Key| ar.contains(k) && bw.contains(k);
            assert(bw.contains(k) && ar.contains(k));
        }
        if crate::types::sets_intersect(bw, ar) {
            let k = choose|k: Key| bw.contains(k) && ar.contains(k);
            assert(ar.contains(k) && bw.contains(k));
        }
    }
}

/// With unique ids, a conflicting pair of ids names one pair of entries.
pub proof fn lemma_pair_conflicts_at(s: Seq<(u64, AccessSets)>, a: int, b: int)
    requires
        input_ids(s).no_duplicates(),
        0 <= a < s.len(),
        0 <= b < s.len(),
        pair_conflicts(s, s[a].0, s[b].0),
        s[a].0 != s[b].0,
    ensures
        sets_conflict(s[a].1.read_set(), s[a].1.write_set(), s[b].1.read_set(), s[b].1.write_set()),
{
    let (i, j) = choose|i: int, j: int|
        0 <= i < s.len() && 0 <= j < s.len() && i != j && (#[trigger] s[i]).0 == s[a].0 && (
        #[trigger] s[j]).0 == s[b].0 && sets_conflict(
            s[i].1.read_set(),
            s[i].1.write_set(),
            s[j].1.read_set(),
            s[j].1.write_set(),
        );
    assert(input_ids(s)[i] == s[i].0);
    assert(input_ids(s)[a] == s[a].0);
    assert(input_ids(s)[j] == s[j].0);
    assert(input_ids(s)[b] == s[b].0);
    assert(i == a);
    assert(j == b);
}

/// Pushes each id of a list onto the candidate list.
fn extend_ids(cands: &mut Vec<u64>, more: &Vec<u64>)
    ensures
        forall|x: u64| old(cands)@.contains(x) ==> final(cands)@.contains(x),
        forall|x: u64| more@.contains(x) ==> final(cands)@.contains(x),
        forall|x: u64| final(cands)@.contains(x) ==> old(cands)@.contains(x) || more@.contains(x),
{
    let mut i: usize = 0;
    while i < more.len()
        invariant
            0 <= i <= more@.len(),
            forall|x: u64| old(cands)@.contains(x) ==> cands@.contains(x),
            forall|j: int| 0 <= j < i ==> cands@.contains(more@[j]),
            forall|x: u64| cands@.contains(x) ==> old(cands)@.contains(x) || more@.contains(x),
        decreases more@.len() - i,
    {
        let ghost before = cands@;
        cands.push(more[i]);
        proof {
            assert forall|x: u64| before.contains(x) implies cands@.contains(x) by {
                let j = choose|j: int| 0 <= j < before.len() && before[j] == x;
                assert(cands@[j] == x);
            }
            assert(cands@[cands@.len() - 1] == more@[i as int]);
            assert forall|x: u64| cands@.contains(x) implies before.contains(x) || more@.contains(
                x,
            ) by {
                let j = choose|j: int| 0 <= j < cands@.len() && cands@[j] == x;
                if j < cands@.len() - 1 {
                    assert(before[j] == x);
                }
            }
        }
        i += 1;
    }
}

/// Whether a pair occurs in a list.
fn pair_list_contains(v: &Vec<(u64, u64)>, p: (u64, u64)) -> (r: bool)
    ensures
        r == v@.contains(p),
{
    let mut i: usize = 0;
    while i < v.len()
        invariant
            0 <= i <= v@.len(),
            forall|j: int| 0 <= j < i ==> v@[j] != p,
        decreases v@.len() - i,
    {
        if v[i].0 == p.0 && v[i].1 == p.1 {
            return true;
        }
        i += 1;
    }
    false
}

impl ConflictGraph {
    /// Builds the conflict graph of the given access sets: two entries are
    /// joined exactly when their sets conflict. An inverted key index keeps
    /// the pair tests to entries that share a key.
    pub fn build(transactions: &Vec<(u64, AccessSets)>) -> (g: ConflictGraph)
        requires
            input_ids(transactions@).no_duplicates(),
        ensures
            g.wf(),
            g.node_map().dom() == input_ids(transactions@).to_set(),
            forall|i: int|
                0 <= i < transactions@.len() ==> {
                    let e = #[trigger] transactions@[i];
                    g.node_map()[e.0].reads@ == e.1.reads@ && g.node_map()[e.0].writes@
                        == e.1.writes@
                },
            forall|u: u64, v: u64|
                #[trigger] g.adjacent(u, v) <==> pair_conflicts(transactions@, u, v),
    {
        let ghost txs = transactions@;
        let mut graph = ConflictGraph::new();
        let n = transactions.len();
        let mut i: usize = 0;
        while i < n
            invariant
                0 <= i <= n,
                n == txs.len(),
                txs == transactions@,
                input_ids(txs).no_duplicates(),
                graph.wf(),
                graph.node_map().dom() == input_ids(txs.take(i as int)).to_set(),
                forall|j: int|
                    0 <= j < i ==> {
                        let e = #[trigger] txs[j];
                        graph.node_map().dom().contains(e.0) && graph.node_map()[e.0].reads@
                            == e.1.reads@ && graph.node_map()[e.0].writes@ == e.1.writes@
                    },
                forall|u: u64, v: u64| !graph.adjacent(u, v),
            decreases n - i,
        {
            let sets = transactions[i].1.clone();
            proof {
                let pre = input_ids(txs.take(i as int));
                let post = input_ids(txs.take(i + 1));
                assert(post =~= pre.push(txs[i as int].0));
                assert forall|x: u64| post.to_set().contains(x) implies pre.to_set().insert(
                    txs[i as int].0,
                ).contains(x) by {
                    let j = choose|j: int| 0 <= j < post.len() && post[j] == x;
                    if j < pre.len() {
                        assert(pre[j] == x);
                    }
                }
                assert forall|x: u64| pre.to_set().insert(txs[i as int].0).contains(x) implies
                    post.to_set().contains(x) by {
                    if x == txs[i as int].0 {
                        assert(post[pre.len() as int] == x);
                    } else {
                        let j = choose|j: int| 0 <= j < pre.len() && pre[j] == x;
                        assert(post[j] == x);
                    }
                }
                assert(post.to_set() =~= pre.to_set().insert(txs[i as int].0));
            }
            graph.add_node(transactions[i].0, sets);
            proof {
                assert forall|j: int|
                    0 <= j < i + 1 implies {
                        let e = #[trigger] txs[j];
                        graph.node_map().dom().contains(e.0) && graph.node_map()[e.0].reads@
                            == e.1.reads@ && graph.node_map()[e.0].writes@ == e.1.writes@
                    } by {
                    if j < i {
                        assert(input_ids(txs)[j] == txs[j].0);
                        assert(input_ids(txs)[i as int] == txs[i as int].0);
                        assert(txs[j].0 != txs[i as int].0);
                    }
                }
            }
            i += 1;
        }
        proof {
            assert(txs.take(n as int) =~= txs);
        }
        // the inverted index: each key to the ids that touch it
        let mut key_index: KeyMap<Vec<u64>> = KeyMap::new();
        let mut b: usize = 0;
        while b < n
            invariant
                0 <= b <= n,
                n == txs.len(),
                txs == transactions@,
                forall|j: int, k: Key|
                    0 <= j < b && #[trigger] touches(txs[j].1, k) ==> key_index@.dom().contains(k)
                        && key_index@[k]@.contains(txs[j].0),
                forall|k: Key, x: u64|
                    #![trigger key_index@[k]@.contains(x)]
                    key_index@.dom().contains(k) && key_index@[k]@.contains(x) ==> exists|j: int|
                        0 <= j < txs.len() && (#[trigger] txs[j]).0 == x && touches(txs[j].1, k),
            decreases n - b,
        {
            let id = transactions[b].0;
            let rlen = transactions[b].1.reads.len();
            let mut p: usize = 0;
            while p < rlen
                invariant
                    0 <= p <= rlen,
                    0 <= b < n,
                    n == txs.len(),
                    txs == transactions@,
                    id == txs[b as int].0,
                    rlen == txs[b as int].1.reads@.len(),
                    forall|j: int, k: Key|
                        0 <= j < b && #[trigger] touches(txs[j].1, k) ==> key_index@.dom().contains(
                            k,
                        ) && key_index@[k]@.contains(txs[j].0),
                    forall|q: int|
                        0 <= q < p ==> key_index@.dom().contains(#[trigger] txs[b as int].1.reads@[q])
                            && key_index@[txs[b as int].1.reads@[q]]@.contains(id),
                    forall|k: Key, x: u64|
                        #![trigger key_index@[k]@.contains(x)]
                        key_index@.dom().contains(k) && key_index@[k]@.contains(x) ==> exists|j: int|
                            0 <= j < txs.len() && (#[trigger] txs[j]).0 == x && touches(
                                txs[j].1,
                                k,
                            ),
                decreases rlen - p,
            {
                let k = transactions[b].1.reads[p];
                let mut cur: Vec<u64> = match key_index.get(&k) {
                    Some(l) => clone_id_list(l),
                    None => Vec::new(),
                };
                let ghost curv = cur@;
                cur.push(id);
                proof {
                    assert forall|x: u64| curv.contains(x) implies cur@.contains(x) by {
                        let j = choose|j: int| 0 <= j < curv.len() && curv[j] == x;
                        assert(cur@[j] == x);
                    }
                    assert(cur@[cur@.len() - 1] == id);
                    assert(touches(txs[b as int].1, k)) by {
                        assert(txs[b as int].1.reads@[p as int] == k);
                    }
                    assert forall|x: u64| cur@.contains(x) implies curv.contains(x) || x == id by {
                        let j = choose|j: int| 0 <= j < cur@.len() && cur@[j] == x;
                        if j < cur@.len() - 1 {
                            assert(curv[j] == x);
                        }
                    }
                }
                let ghost pre = key_index@;
                key_index.insert(k, cur);
                proof {
                    assert forall|k2: Key, x: u64|
                        #![trigger key_index@[k2]@.contains(x)]
                        key_index@.dom().contains(k2) && key_index@[k2]@.contains(x) implies exists|
                            j: int,
                        |
                            0 <= j < txs.len() && (#[trigger] txs[j]).0 == x && touches(
                                txs[j].1,
                                k2,
                            ) by {
                        if k2 == k {
                            if x == id {
                                assert(txs[b as int].0 == x && touches(txs[b as int].1, k));
                            } else {
                                assert(curv.contains(x));
                                assert(pre.dom().contains(k) && pre[k]@.contains(x));
                            }
                        } else {
                            assert(pre.dom().contains(k2) && pre[k2]@.contains(x));
                        }
                    }
                    assert forall|j: int, k2: Key|
                        0 <= j < b && #[trigger] touches(txs[j].1, k2) implies
                        key_index@.dom().contains(k2) && key_index@[k2]@.contains(txs[j].0) by {
                        if k2 == k {
                            assert(pre[k2]@.contains(txs[j].0));
                        }
                    }
                }
                p += 1;
            }
            let wlen = transactions[b].1.writes.len();
            let mut w: usize = 0;
            while w < wlen
                invariant
                    0 <= w <= wlen,
                    0 <= b < n,
                    n == txs.len(),
                    txs == transactions@,
                    id == txs[b as int].0,
                    wlen == txs[b as int].1.writes@.len(),
                    forall|j: int, k: Key|
                        0 <= j < b && #[trigger] touches(txs[j].1, k) ==> key_index@.dom().contains(
                            k,
                        ) && key_index@[k]@.contains(txs[j].0),
                    forall|q: int|
                        0 <= q < txs[b as int].1.reads@.len() ==> key_index@.dom().contains(
                            #[trigger] txs[b as int].1.reads@[q],
                        ) && key_index@[txs[b as int].1.reads@[q]]@.contains(id),
                    forall|q: int|
                        0 <= q < w ==> key_index@.dom().contains(
                            #[trigger] txs[b as int].1.writes@[q],
                        ) && key_index@[txs[b as int].1.writes@[q]]@.contains(id),
                    forall|k: Key, x: u64|
                        #![trigger key_index@[k]@.contains(x)]
                        key_index@.dom().contains(k) && key_index@[k]@.contains(x) ==> exists|j: int|
                            0 <= j < txs.len() && (#[trigger] txs[j]).0 == x && touches(
                                txs[j].1,
                                k,
                            ),
                decreases wlen - w,
            {
                let k = transactions[b].1.writes[w];
                let mut cur: Vec<u64> = match key_index.get(&k) {
                    Some(l) => clone_id_list(l),
                    None => Vec::new(),
                };
                let ghost curv = cur@;
                cur.push(id);
                proof {
                    assert forall|x: u64| curv.contains(x) implies cur@.contains(x) by {
                        let j = choose|j: int| 0 <= j < curv.len() && curv[j] == x;
                        assert(cur@[j] == x);
                    }
                    assert(cur@[cur@.len() - 1] == id);
                    assert(touches(txs[b as int].1, k)) by {
                        assert(txs[b as int].1.writes@[w as int] == k);
                    }
                    assert forall|x: u64| cur@.contains(x) implies curv.contains(x) || x == id by {
                        let j = choose|j: int| 0 <= j < cur@.len() && cur@[j] == x;
                        if j < cur@.len() - 1 {
                            assert(curv[j] == x);
                        }
                    }
                }
                let ghost pre = key_index@;
                key_index.insert(k, cur);
                proof {
                    assert forall|k2: Key, x: u64|
                        #![trigger key_index@[k2]@.contains(x)]
                        key_index@.dom().contains(k2) && key_index@[k2]@.contains(x) implies exists|
                            j: int,
                        |
                            0 <= j < txs.len() && (#[trigger] txs[j]).0 == x && touches(
                                txs[j].1,
                                k2,
                            ) by {
                        if k2 == k {
                            if x == id {
                                assert(txs[b as int].0 == x && touches(txs[b as int].1, k));
                            } else {
                                assert(curv.contains(x));
                                assert(pre.dom().contains(k) && pre[k]@.contains(x));
                            }
                        } else {
                            assert(pre.dom().contains(k2) && pre[k2]@.contains(x));
                        }
                    }
                    assert forall|j: int, k2: Key|
                        0 <= j < b && #[trigger] touches(txs[j].1, k2) implies
                        key_index@.dom().contains(k2) && key_index@[k2]@.contains(txs[j].0) by {
                        if k2 == k {
                            assert(pre[k2]@.contains(txs[j].0));
                        }
                    }
                }
                w += 1;
            }
            proof {
                assert forall|j: int, k: Key|
                    0 <= j < b + 1 && #[trigger] touches(txs[j].1, k) implies
                    key_index@.dom().contains(k) && key_index@[k]@.contains(txs[j].0) by {
                    if j == b {
                        if txs[j].1.reads@.contains(k) {
                            let q = choose|q: int|
                                0 <= q < txs[j].1.reads@.len() && txs[j].1.reads@[q] == k;
                        } else {
                            let q = choose|q: int|
                                0 <= q < txs[j].1.writes@.len() && txs[j].1.writes@[q] == k;
                        }
                    }
                }
            }
            b += 1;
        }
        // pair tests, deduplicated by a checked-pair list
        let mut checked: Vec<(u64, u64)> = Vec::new();
        let mut c: usize = 0;
        while c < n
            invariant
                0 <= c <= n,
                n == txs.len(),
                txs == transactions@,
                input_ids(txs).no_duplicates(),
                graph.wf(),
                graph.node_map().dom() == input_ids(txs).to_set(),
                forall|j: int|
                    0 <= j < n ==> {
                        let e = #[trigger] txs[j];
                        graph.node_map().dom().contains(e.0) && graph.node_map()[e.0].reads@
                            == e.1.reads@ && graph.node_map()[e.0].writes@ == e.1.writes@
                    },
                forall|j: int, k: Key|
                    0 <= j < n && #[trigger] touches(txs[j].1, k) ==> key_index@.dom().contains(k)
                        && key_index@[k]@.contains(txs[j].0),
                forall|k: Key, x: u64|
                    #![trigger key_index@[k]@.contains(x)]
                    key_index@.dom().contains(k) && key_index@[k]@.contains(x) ==> exists|j: int|
                        0 <= j < txs.len() && (#[trigger] txs[j]).0 == x && touches(txs[j].1, k),
                forall|u: u64, v: u64| #[trigger] graph.adjacent(u, v) ==> pair_conflicts(txs, u, v),
                forall|p: (u64, u64)|
                    #[trigger] checked@.contains(p) && pair_conflicts(txs, p.0, p.1)
                        ==> graph.adjacent(p.0, p.1),
                forall|a: int, e: int|
                    0 <= a < c && 0 <= e < n && txs[a].0 != txs[e].0 && sets_conflict(
                        (#[trigger] txs[a]).1.read_set(),
                        txs[a].1.write_set(),
                        (#[trigger] txs[e]).1.read_set(),
                        txs[e].1.write_set(),
                    ) ==> graph.adjacent(txs[a].0, txs[e].0),
            decreases n - c,
        {
            let id = transactions[c].0;
            let mut cands: Vec<u64> = Vec::new();
            let rlen = transactions[c].1.reads.len();
            let mut p: usize = 0;
            while p < rlen
                invariant
                    0 <= p <= rlen,
                    0 <= c < n,
                    n == txs.len(),
                    txs == transactions@,
                    rlen == txs[c as int].1.reads@.len(),
                    forall|q: int, x: u64|
                        #![trigger key_index@[txs[c as int].1.reads@[q]]@.contains(x)]
                        0 <= q < p && key_index@.dom().contains(txs[c as int].1.reads@[q])
                            && key_index@[txs[c as int].1.reads@[q]]@.contains(x)
                            ==> cands@.contains(x),
                decreases rlen - p,
            {
                let k = transactions[c].1.reads[p];
                match key_index.get(&k) {
                    Some(l) => {
                        extend_ids(&mut cands, l);
                    },
                    None => {},
                }
                p += 1;
            }
            let wlen = transactions[c].1.writes.len();
            let mut w: usize = 0;
            while w < wlen
                invariant
                    0 <= w <= wlen,
                    0 <= c < n,
                    n == txs.len(),
                    txs == transactions@,
                    wlen == txs[c as int].1.writes@.len(),
                    forall|q: int, x: u64|
                        #![trigger key_index@[txs[c as int].1.reads@[q]]@.contains(x)]
                        0 <= q < txs[c as int].1.reads@.len() && key_index@.dom().contains(
                            txs[c as int].1.reads@[q],
                        ) && key_index@[txs[c as int].1.reads@[q]]@.contains(x)
                            ==> cands@.contains(x),
                    forall|q: int, x: u64|
                        #![trigger key_index@[txs[c as int].1.writes@[q]]@.contains(x)]
                        0 <= q < w && key_index@.dom().contains(txs[c as int].1.writes@[q])
                            && key_index@[txs[c as int].1.writes@[q]]@.contains(x)
                            ==> cands@.contains(x),
                decreases wlen - w,
            {
                let k = transactions[c].1.writes[w];
                match key_index.get(&k) {
                    Some(l) => {
                        extend_ids(&mut cands, l);
                    },
                    None => {},
                }
                w += 1;
            }
            // every entry conflicting with this one is among the candidates
            proof {
                assert forall|e: int|
                    0 <= e < n && txs[e].0 != id && sets_conflict(
                        (#[trigger] txs[e]).1.read_set(),
                        txs[e].1.write_set(),
                        txs[c as int].1.read_set(),
                        txs[c as int].1.write_set(),
                    ) implies cands@.contains(txs[e].0) by {
                    lemma_conflict_sym(txs[c as int].1, txs[e].1);
                    lemma_conflict_shares_key(txs[c as int].1, txs[e].1);
                    let k = choose|k: Key|
                        #[trigger] touches(txs[c as int].1, k) && touches(txs[e].1, k);
                    assert(key_index@.dom().contains(k) && key_index@[k]@.contains(txs[e].0));
                    if txs[c as int].1.reads@.contains(k) {
                        let q = choose|q: int|
                            0 <= q < txs[c as int].1.reads@.len() && txs[c as int].1.reads@[q] == k;
                    } else {
                        let q = choose|q: int|
                            0 <= q < txs[c as int].1.writes@.len() && txs[c as int].1.writes@[q]
                                == k;
                    }
                }
            }
            let clen = cands.len();
            let mut ci: usize = 0;
            while ci < clen
                invariant
                    0 <= ci <= clen,
                    0 <= c < n,
                    n == txs.len(),
                    txs == transactions@,
                    clen == cands@.len(),
                    id == txs[c as int].0,
                    input_ids(txs).no_duplicates(),
                    graph.wf(),
                    graph.node_map().dom() == input_ids(txs).to_set(),
                    forall|j: int|
                        0 <= j < n ==> {
                            let e = #[trigger] txs[j];
                            graph.node_map().dom().contains(e.0) && graph.node_map()[e.0].reads@
                                == e.1.reads@ && graph.node_map()[e.0].writes@ == e.1.writes@
                        },
                    forall|u: u64, v: u64|
                        #[trigger] graph.adjacent(u, v) ==> pair_conflicts(txs, u, v),
                    forall|p2: (u64, u64)|
                        #[trigger] checked@.contains(p2) && pair_conflicts(txs, p2.0, p2.1)
                            ==> graph.adjacent(p2.0, p2.1),
                    forall|a: int, e: int|
                        0 <= a < c && 0 <= e < n && txs[a].0 != txs[e].0 && sets_conflict(
                            (#[trigger] txs[a]).1.read_set(),
                            txs[a].1.write_set(),
                            (#[trigger] txs[e]).1.read_set(),
                            txs[e].1.write_set(),
                        ) ==> graph.adjacent(txs[a].0, txs[e].0),
                    forall|x: int|
                        0 <= x < ci && cands@[x] != id && pair_conflicts(txs, id, #[trigger] cands@[x])
                            ==> graph.adjacent(id, cands@[x]),
                decreases clen - ci,
            {
                let other = cands[ci];
                if other != id {
                    let pair = if id < other {
                        (id, other)
                    } else {
                        (other, id)
                    };
                    if !pair_list_contains(&checked, pair) {
                        let ghost checked0 = checked@;
                        checked.push(pair);
                        proof {
                            assert(checked@[checked@.len() - 1] == pair);
                            assert(checked@.contains(pair));
                            assert forall|p2: (u64, u64)| checked@.contains(p2) implies
                                checked0.contains(p2) || p2 == pair by {
                                let j = choose|j: int| 0 <= j < checked@.len() && checked@[j] == p2;
                                if j < checked@.len() - 1 {
                                    assert(checked0[j] == p2);
                                }
                            }
                            assert forall|p2: (u64, u64)| checked0.contains(p2) implies
                                checked@.contains(p2) by {
                                let j = choose|j: int| 0 <= j < checked0.len() && checked0[j] == p2;
                                assert(checked@[j] == p2);
                            }
                        }
                        let mut conflict_found = false;
                        match graph.get_access_sets(other) {
                            Some(other_sets) => {
                                if transactions[c].1.has_conflict_with(other_sets) {
                                    conflict_found = true;
                                }
                            },
                            None => {},
                        }
                        if conflict_found {
                            proof {
                                // the candidate names some input entry
                                crate::idmap::lemma_id_assoc_dom(txs.map_values(
                                    |e: (u64, AccessSets)| e,
                                ));
                                assert(input_ids(txs).to_set().contains(other));
                                let e = choose|e: int|
                                    0 <= e < input_ids(txs).len() && input_ids(txs)[e] == other;
                                assert(txs[e].0 == other);
                                assert(graph.node_map()[other].reads@ == txs[e].1.reads@);
                                assert(graph.node_map()[other].writes@ == txs[e].1.writes@);
                                assert(sets_conflict(
                                    txs[c as int].1.read_set(),
                                    txs[c as int].1.write_set(),
                                    txs[e].1.read_set(),
                                    txs[e].1.write_set(),
                                ));
                                lemma_conflict_sym(txs[c as int].1, txs[e].1);
                                assert(pair_conflicts(txs, id, other)) by {
                                    assert(c != e);
                                }
                                assert(pair_conflicts(txs, other, id)) by {
                                    assert(c != e);
                                }
                            }
                            graph.add_edge(id, other);
                        } else {
                            proof {
                                // no conflict between the named entries: the
                                // pair cannot conflict at all
                                if pair_conflicts(txs, pair.0, pair.1) {
                                    let a2 = choose|a2: int|
                                        0 <= a2 < input_ids(txs).len() && input_ids(txs)[a2]
                                            == pair.0;
                                    let b2 = choose|b2: int|
                                        0 <= b2 < input_ids(txs).len() && input_ids(txs)[b2]
                                            == pair.1;
                                    assert(txs[a2].0 == pair.0 && txs[b2].0 == pair.1);
                                    lemma_pair_conflicts_at(txs, a2, b2);
                                    lemma_conflict_sym(txs[a2].1, txs[b2].1);
                                    assert(graph.node_map().dom().contains(other));
                                    assert(input_ids(txs).to_set().contains(other));
                                    let e = choose|e: int|
                                        0 <= e < input_ids(txs).len() && input_ids(txs)[e] == other;
                                    assert(txs[e].0 == other);
                                    let csets = graph.node_map()[other];
                                    assert(csets.reads@ == txs[e].1.reads@);
                                    assert(e == a2 || e == b2);
                                    assert(c as int == a2 || c as int == b2);
                                    assert(false);
                                }
                            }
                        }
                        proof {
                            assert forall|p2: (u64, u64)|
                                #[trigger] checked@.contains(p2) && pair_conflicts(txs, p2.0, p2.1)
                                implies graph.adjacent(p2.0, p2.1) by {
                                if p2 == pair {
                                } else {
                                    assert(checked0.contains(p2));
                                }
                            }
                        }
                    }
                    proof {
                        // whether tested now or earlier, a conflicting
                        // candidate is adjacent by now
                        if pair_conflicts(txs, id, other) {
                            assert(checked@.contains(pair));
                            assert(pair_conflicts(txs, pair.0, pair.1)) by {
                                if pair.0 != id {
                                    let (i2, j2) = choose|i2: int, j2: int|
                                        0 <= i2 < txs.len() && 0 <= j2 < txs.len() && i2 != j2 && (
                                        #[trigger] txs[i2]).0 == id && (#[trigger] txs[j2]).0
                                            == other && sets_conflict(
                                            txs[i2].1.read_set(),
                                            txs[i2].1.write_set(),
                                            txs[j2].1.read_set(),
                                            txs[j2].1.write_set(),
                                        );
                                    lemma_conflict_sym(txs[i2].1, txs[j2].1);
                                }
                            }
                            assert(graph.adjacent(pair.0, pair.1));
                            assert(graph.adjacent(id, other));
                        }
                    }
                }
                ci += 1;
            }
            proof {
                assert forall|a: int, e: int|
                    0 <= a < c + 1 && 0 <= e < n && txs[a].0 != txs[e].0 && sets_conflict(
                        (#[trigger] txs[a]).1.read_set(),
                        txs[a].1.write_set(),
                        (#[trigger] txs[e]).1.read_set(),
                        txs[e].1.write_set(),
                    ) implies graph.adjacent(txs[a].0, txs[e].0) by {
                    if a == c {
                        assert(cands@.contains(txs[e].0));
                        let x = choose|x: int| 0 <= x < cands@.len() && cands@[x] == txs[e].0;
                        assert(pair_conflicts(txs, id, txs[e].0)) by {
                            assert(a != e);
                        }
                    }
                }
            }
            c += 1;
        }
        proof {
            assert forall|u: u64, v: u64|
                pair_conflicts(txs, u, v) implies #[trigger] graph.adjacent(u, v) by {
                let (i2, j2) = choose|i2: int, j2: int|
                    0 <= i2 < txs.len() && 0 <= j2 < txs.len() && i2 != j2 && (#[trigger] txs[i2]).0
                        == u && (#[trigger] txs[j2]).0 == v && sets_conflict(
                        txs[i2].1.read_set(),
                        txs[i2].1.write_set(),
                        txs[j2].1.read_set(),
                        txs[j2].1.write_set(),
                    );
                assert(txs[i2].0 != txs[j2].0) by {
                    assert(input_ids(txs)[i2] == txs[i2].0);
                    assert(input_ids(txs)[j2] == txs[j2].0);
                }
            }
        }
        graph
    }
}

/// Distinct adjacency lists of distinct nodes, each free of its own node:
/// the degree sum stays at most the number of ordered node pairs.
proof fn lemma_deg_sum_bound(es: Seq<(u64, Vec<u64>)>, dom: Set<u64>)
    requires
        dom.finite(),
        crate::idmap::id_assoc_keys(es).no_duplicates(),
        forall|i: int|
            0 <= i < es.len() ==> dom.contains((#[trigger] es[i]).0) && es[i].1@.no_duplicates()
                && (forall|v: u64| #[trigger] es[i].1@.contains(v) ==> dom.contains(v) && v != es[i].0),
    ensures
        deg_sum(es) <= es.len() * (dom.len() - 1),
        es.len() <= dom.len(),
    decreases es.len(),
{
    if es.len() == 0 {
    } else {
        assert(crate::idmap::id_assoc_keys(es.drop_last()) =~= crate::idmap::id_assoc_keys(
            es,
        ).drop_last());
        lemma_deg_sum_bound(es.drop_last(), dom);
        let key = es.last().0;
        let l = es.last().1@;
        l.unique_seq_to_set();
        assert(l.to_set().subset_of(dom.remove(key))) by {
            assert forall|v: u64| l.to_set().contains(v) implies dom.remove(key).contains(v) by {
                assert(l.contains(v));
            }
        }
        assert(dom.contains(key)) by {
            assert(es[es.len() - 1].0 == key);
        }
        assert(dom.remove(key).len() == dom.len() - 1);
        vstd::set_lib::lemma_len_subset(l.to_set(), dom.remove(key));
        assert(l.len() <= dom.len() - 1);
        assert((es.len() - 1) * (dom.len() - 1) + (dom.len() - 1) == es.len() * (dom.len() - 1))
            by (nonlinear_arith);
        // the key list itself fits inside the domain
        let ks = crate::idmap::id_assoc_keys(es);
        ks.unique_seq_to_set();
        assert(ks.to_set().subset_of(dom)) by {
            assert forall|v: u64| ks.to_set().contains(v) implies dom.contains(v) by {
                let i = choose|i: int| 0 <= i < ks.len() && ks[i] == v;
                assert(es[i].0 == v);
            }
        }
        vstd::set_lib::lemma_len_subset(ks.to_set(), dom);
    }
}

/// Conflict-graph symmetry: in a well-formed graph, an edge joining `u` to
/// `v` also joins `v` to `u`.
pub proof fn lemma_graph_symmetry(g: &ConflictGraph, u: u64, v: u64)
    requires
        g.wf(),
    ensures
        g.adjacent(u, v) <==> g.adjacent(v, u),
{
}

} // verus!
