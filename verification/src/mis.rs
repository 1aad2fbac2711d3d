//! The wave scheduler: greedy minimum-degree maximal independent sets.
use vstd::prelude::*;
use crate::graph::ConflictGraph;
use crate::graph::pair_conflicts;
use crate::idmap::clone_id_list;
use crate::oracle::AccessListBuilder;
use crate::oracle::AccessOracle;
use crate::types::AccessSets;
use crate::types::Block;
use crate::types::sets_conflict;

verus! {

/// The concatenation of a list of waves.
pub open spec fn wave_concat(ws: Seq<Seq<u64>>) -> Seq<u64>
    decreases ws.len(),
{
    if ws.len() == 0 {
        Seq::<u64>::empty()
    } else {
        wave_concat(ws.drop_last()) + ws.last()
    }
}

/// A strictly ascending sequence of ids.
pub open spec fn strictly_ascending(s: Seq<u64>) -> bool {
    forall|i: int, j: int| 0 <= i < j < s.len() ==> s[i] < s[j]
}

/// Sorts a duplicate-free list of ids into ascending order.
pub fn sort_ids(input: Vec<u64>) -> (r: Vec<u64>)
    requires
        input@.no_duplicates(),
    ensures
        r@.no_duplicates(),
        strictly_ascending(r@),
        r@.to_set() == input@.to_set(),
        r@.len() == input@.len(),
{
    let mut work = input;
    let mut out: Vec<u64> = Vec::new();
    let ghost orig = work@;
    while work.len() > 0
        invariant
            work@.no_duplicates(),
            out@.no_duplicates(),
            strictly_ascending(out@),
            out@.len() + work@.len() == orig.len(),
            forall|x: u64| out@.contains(x) || work@.contains(x) <==> orig.contains(x),
            forall|x: u64| !(out@.contains(x) && work@.contains(x)),
            forall|x: u64, y: u64| out@.contains(x) && work@.contains(y) ==> x < y,
        decreases work@.len(),
    {
        let mut best: usize = 0;
        let mut t: usize = 1;
        while t < work.len()
            invariant
                0 <= best < t <= work@.len(),
                work@.len() > 0,
                forall|j: int| 0 <= j < t ==> work@[best as int] <= work@[j],
            decreases work@.len() - t,
        {
            if work[t] < work[best] {
                best = t;
            }
            t += 1;
        }
        let m = work[best];
        let ghost work0 = work@;
        let ghost out0 = out@;
        out.push(m);
        let _ = work.remove(best);
        proof {
            assert(out@ == out0.push(m));
            assert(work@ == work0.remove(best as int));
            assert(out@[out@.len() - 1] == m);
            assert(work0.contains(m)) by {
                assert(work0[best as int] == m);
            }
            assert forall|x: u64| work@.contains(x) implies work0.contains(x) && x != m by {
                let j = choose|j: int| 0 <= j < work@.len() && work@[j] == x;
                if j < best {
                    assert(work0[j] == x);
                } else {
                    assert(work0[j + 1] == x);
                }
                if x == m {
                    if j < best {
                        assert(work0[j] == work0[best as int]);
                    } else {
                        assert(work0[j + 1] == work0[best as int]);
                    }
                }
            }
            assert forall|x: u64| work0.contains(x) && x != m implies work@.contains(x) by {
                let j = choose|j: int| 0 <= j < work0.len() && work0[j] == x;
                if j < best {
                    assert(work@[j] == x);
                } else if j > best {
                    assert(work@[j - 1] == x);
                }
            }
            assert forall|x: u64| out@.contains(x) implies out0.contains(x) || x == m by {
                let j = choose|j: int| 0 <= j < out@.len() && out@[j] == x;
                if j < out@.len() - 1 {
                    assert(out0[j] == x);
                }
            }
            assert forall|x: u64| out0.contains(x) implies out@.contains(x) by {
                let j = choose|j: int| 0 <= j < out0.len() && out0[j] == x;
                assert(out@[j] == x);
            }
            assert forall|x: u64, y: u64| out@.contains(x) && work@.contains(y) implies x < y by {
                let jy = choose|jy: int| 0 <= jy < work@.len() && work@[jy] == y;
                let jy0: int = if jy < best { jy } else { jy + 1 };
                assert(work0[jy0] == y);
                assert(y != m) by {
                    if jy0 != best {
                        assert(work0[jy0] != work0[best as int]);
                    }
                }
                if x == m {
                    assert(work0[best as int] <= work0[jy0]);
                } else {
                    assert(out0.contains(x));
                }
            }
            assert(strictly_ascending(out@)) by {
                assert forall|i: int, j: int| 0 <= i < j < out@.len() implies out@[i] < out@[j] by {
                    if j == out@.len() - 1 {
                        assert(out0.contains(out@[i]));
                        assert(work0.contains(m));
                    }
                }
            }
            assert(out@.no_duplicates()) by {
                assert forall|i: int, j: int| 0 <= i < j < out@.len() implies out@[i] != out@[j] by {
                    assert(out@[i] < out@[j]);
                }
            }
        }
    }
    proof {
        assert forall|x: u64| r_contains_iff(out@, orig, x) by {}
        assert(out@.to_set() =~= orig.to_set());
    }
    out
}

/// Helper naming for the set-equality trigger in `sort_ids`.
pub open spec fn r_contains_iff(a: Seq<u64>, b: Seq<u64>, x: u64) -> bool {
    a.to_set().contains(x) <==> b.to_set().contains(x)
}

/// Partitions transactions into waves of pairwise non-conflicting ids.
#[derive(Debug)]
pub struct MIScheduler {
    max_wave_size: usize,
}

impl MIScheduler {
    /// The hard bound on wave size.
    pub closed spec fn cap(&self) -> nat {
        self.max_wave_size as nat
    }

    pub fn new(max_wave_size: usize) -> (r: MIScheduler)
        requires
            max_wave_size >= 1,
        ensures
            r.cap() == max_wave_size,
    {
        MIScheduler { max_wave_size }
    }

    /// The bound as a machine integer.
    pub fn max_size(&self) -> (r: usize)
        ensures
            r == self.cap(),
    {
        self.max_wave_size
    }

    /// A maximal independent set of the available nodes, greedily built
    /// from nodes of minimum degree, bounded by the wave cap.
    #[verifier::rlimit(100)]
    #[verifier::spinoff_prover]
    pub fn find_mis(&self, graph: &ConflictGraph, available: &Vec<u64>) -> (r: Vec<u64>)
        requires
            graph.wf(),
            available@.no_duplicates(),
            self.cap() >= 1,
        ensures
            r@.no_duplicates(),
            forall|x: u64| r@.contains(x) ==> available@.contains(x),
            r@.len() <= self.cap(),
            forall|i: int, j: int|
                0 <= i < r@.len() && 0 <= j < r@.len() && i != j ==> !graph.adjacent(
                    r@[i],
                    r@[j],
                ),
            available@.len() > 0 ==> r@.len() >= 1,
            r@.len() < self.cap() ==> forall|v: u64|
                available@.contains(v) ==> r@.contains(v) || exists|u: u64|
                    r@.contains(u) && graph.adjacent(u, v),
    {
        let mut mis: Vec<u64> = Vec::new();
        let mut remaining = clone_id_list(available);
        while remaining.len() > 0 && mis.len() < self.max_wave_size
            invariant
                graph.wf(),
                available@.no_duplicates(),
                remaining@.no_duplicates(),
                mis@.no_duplicates(),
                mis@.len() <= self.cap(),
                forall|x: u64| mis@.contains(x) ==> available@.contains(x),
                forall|x: u64| remaining@.contains(x) ==> available@.contains(x),
                forall|i: int, j: int|
                    0 <= i < mis@.len() && 0 <= j < mis@.len() && i != j ==> !graph.adjacent(
                        mis@[i],
                        mis@[j],
                    ),
                forall|x: u64, u: u64|
                    remaining@.contains(x) && mis@.contains(u) ==> !graph.adjacent(u, x)
                        && !graph.adjacent(x, u) && x != u,
                forall|v: u64|
                    available@.contains(v) ==> mis@.contains(v) || remaining@.contains(v)
                        || exists|u: u64| mis@.contains(u) && graph.adjacent(u, v),
            decreases remaining@.len(),
        {
            let ghost rem_start = remaining@;
            let ghost mis_start = mis@;
            proof {
                assert(forall|x: u64, u: u64|
                    #![trigger rem_start.contains(x), mis_start.contains(u)]
                    rem_start.contains(x) && mis_start.contains(u) ==> !graph.adjacent(u, x)
                        && !graph.adjacent(x, u) && x != u);
                assert(forall|v: u64|
                    #![trigger available@.contains(v)]
                    available@.contains(v) ==> mis_start.contains(v) || rem_start.contains(v)
                        || exists|u: u64| mis_start.contains(u) && graph.adjacent(u, v));
            }
            let mut best: usize = 0;
            let mut best_deg = graph.get_neighbors(remaining[0]).len();
            let mut t: usize = 1;
            while t < remaining.len()
                invariant
                    0 <= best < t <= remaining@.len(),
                    remaining@.len() > 0,
                decreases remaining@.len() - t,
            {
                let deg = graph.get_neighbors(remaining[t]).len();
                if deg < best_deg || (deg == best_deg && remaining[t] < remaining[best]) {
                    best = t;
                    best_deg = deg;
                }
                t += 1;
            }
            let node = remaining[best];
            let ghost mis0 = mis@;
            mis.push(node);
            proof {
                assert(remaining@.contains(node)) by {
                    assert(remaining@[best as int] == node);
                }
                assert forall|x: u64| mis@.contains(x) implies mis0.contains(x) || x == node by {
                    let j = choose|j: int| 0 <= j < mis@.len() && mis@[j] == x;
                    if j < mis@.len() - 1 {
                        assert(mis0[j] == x);
                    }
                }
                assert(mis@[mis@.len() - 1] == node);
                assert forall|x: u64| mis0.contains(x) implies mis@.contains(x) by {
                    let j = choose|j: int| 0 <= j < mis0.len() && mis0[j] == x;
                    assert(mis@[j] == x);
                }
            }
            let mut next: Vec<u64> = Vec::new();
            let mut f: usize = 0;
            while f < remaining.len()
                invariant
                    0 <= f <= remaining@.len(),
                    graph.wf(),
                    next@.no_duplicates(),
                    remaining@.no_duplicates(),
                    remaining@.contains(node),
                    forall|x: u64| next@.contains(x) ==> remaining@.contains(x),
                    forall|x: u64|
                        next@.contains(x) ==> exists|j: int| 0 <= j < f && remaining@[j] == x,
                    forall|x: u64|
                        next@.contains(x) ==> x != node && !graph.adjacent(node, x)
                            && !graph.adjacent(x, node),
                    forall|j: int|
                        #![trigger remaining@[j]]
                        0 <= j < f ==> (remaining@[j] == node || graph.adjacent(
                            node,
                            remaining@[j],
                        ) || next@.contains(remaining@[j])),
                decreases remaining@.len() - f,
            {
                let x = remaining[f];
                let keep = x != node && !graph.has_conflict(node, x);
                if keep {
                    let ghost next0 = next@;
                    next.push(x);
                    proof {
                        assert(next@[next@.len() - 1] == x);
                        assert forall|y: u64| next@.contains(y) implies next0.contains(y) || y == x
                            by {
                            let j = choose|j: int| 0 <= j < next@.len() && next@[j] == y;
                            if j < next@.len() - 1 {
                                assert(next0[j] == y);
                            }
                        }
                        assert forall|y: u64| next0.contains(y) implies next@.contains(y) by {
                            let j = choose|j: int| 0 <= j < next0.len() && next0[j] == y;
                            assert(next@[j] == y);
                        }
                        assert(!next0.contains(x)) by {
                            if next0.contains(x) {
                                let ja = choose|ja: int| 0 <= ja < f && remaining@[ja] == x;
                                assert(remaining@[f as int] == x);
                            }
                        }
                        assert(next@.no_duplicates()) by {
                            assert forall|a: int, b2: int|
                                0 <= a < b2 < next@.len() implies next@[a] != next@[b2] by {
                                if b2 == next@.len() - 1 {
                                    assert(next0.contains(next@[a]));
                                }
                            }
                        }
                        assert(!graph.adjacent(x, node)) by {
                            if graph.adjacent(x, node) {
                                assert(graph.adjacent(node, x));
                            }
                        }
                        assert forall|y: u64| next@.contains(y) implies y != node
                            && !graph.adjacent(node, y) && !graph.adjacent(y, node) by {
                            if next0.contains(y) {
                            } else {
                                assert(y == x);
                            }
                        }
                        assert forall|y: u64| next@.contains(y) implies exists|j: int|
                            0 <= j < f + 1 && remaining@[j] == y by {
                            if next0.contains(y) {
                                let j = choose|j: int| 0 <= j < f && remaining@[j] == y;
                                assert(0 <= j < f + 1 && remaining@[j] == y);
                            } else {
                                assert(y == x);
                                assert(remaining@[f as int] == y);
                            }
                        }
                    }
                } else {
                    proof {
                        assert forall|y: u64| next@.contains(y) implies exists|j: int|
                            0 <= j < f + 1 && remaining@[j] == y by {
                            let j = choose|j: int| 0 <= j < f && remaining@[j] == y;
                            assert(0 <= j < f + 1 && remaining@[j] == y);
                        }
                    }
                }
                f += 1;
            }
            proof {
                assert(mis@ == mis0.push(node));
                assert(mis@.last() == node);
                assert(forall|i2: int| 0 <= i2 < mis0.len() ==> mis@[i2] == mis0[i2]);
                assert(remaining@.contains(node));
                assert(mis0 == mis_start);
                assert(rem_start == remaining@);
                assert(!mis0.contains(node)) by {
                    if mis0.contains(node) {
                        assert(rem_start.contains(node) && mis_start.contains(node));
                    }
                }
                assert(forall|u: u64| mis0.contains(u) ==> u != node);
            }
            let ghost mis1 = mis@;
            let ghost rem1 = remaining@;
            remaining = next;
            proof {
                // the pool shrank: the chosen node left it
                rem1.unique_seq_to_set();
                remaining@.unique_seq_to_set();
                assert(remaining@.to_set().subset_of(rem1.to_set().remove(node))) by {
                    assert forall|x: u64| remaining@.to_set().contains(x) implies rem1.to_set().remove(
                        node,
                    ).contains(x) by {
                        assert(rem1.contains(x));
                    }
                }
                assert(rem1.to_set().contains(node));
                assert(rem1.to_set().remove(node).len() == rem1.to_set().len() - 1);
                vstd::set_lib::lemma_len_subset(remaining@.to_set(), rem1.to_set().remove(node));
                // the invariants over the new pool and set
                assert forall|i2: int, j2: int|
                    0 <= i2 < mis@.len() && 0 <= j2 < mis@.len() && i2 != j2 implies !graph.adjacent(
                    mis@[i2],
                    mis@[j2],
                ) by {
                    if i2 == mis@.len() - 1 {
                        assert(mis@[i2] == node);
                        assert(mis0.contains(mis@[j2])) by {
                            assert(mis0[j2] == mis@[j2]);
                        }
                        assert(rem1.contains(node));
                    } else if j2 == mis@.len() - 1 {
                        assert(mis@[j2] == node);
                        assert(mis0.contains(mis@[i2])) by {
                            assert(mis0[i2] == mis@[i2]);
                        }
                        assert(rem1.contains(node));
                    } else {
                        assert(mis0[i2] == mis@[i2] && mis0[j2] == mis@[j2]);
                    }
                }
                assert(mis@.no_duplicates()) by {
                    assert forall|a: int, b2: int|
                        0 <= a < b2 < mis@.len() implies mis@[a] != mis@[b2] by {
                        if b2 == mis@.len() - 1 {
                            assert(mis@[a] == mis0[a]);
                            assert(mis0.contains(mis@[a])) by {
                                assert(mis0[a] == mis@[a]);
                            }
                            assert(mis@[b2] == node);
                            assert(mis@[a] != node);
                        } else {
                            assert(mis@[a] == mis0[a] && mis@[b2] == mis0[b2]);
                        }
                    }
                }
                assert forall|x: u64, u: u64|
                    remaining@.contains(x) && mis@.contains(u) implies !graph.adjacent(u, x)
                        && !graph.adjacent(x, u) && x != u by {
                    if u == node {
                    } else {
                        assert(mis0.contains(u));
                        assert(rem1.contains(x));
                    }
                }
                assert forall|v: u64|
                    available@.contains(v) implies mis@.contains(v) || remaining@.contains(v)
                        || exists|u: u64| mis@.contains(u) && graph.adjacent(u, v) by {
                    if !mis0.contains(v) && !(exists|u: u64| mis0.contains(u) && graph.adjacent(u, v))
                        && !remaining@.contains(v) {
                        assert(rem1.contains(v));
                        let j = choose|j: int| 0 <= j < rem1.len() && rem1[j] == v;
                        assert(rem1[j] == node || graph.adjacent(node, rem1[j])
                            || remaining@.contains(rem1[j]));
                        if v == node {
                            assert(mis@.contains(v));
                        } else {
                            assert(graph.adjacent(node, v));
                            assert(mis@.contains(node) && graph.adjacent(node, v));
                        }
                    }
                }
            }
        }
        proof {
            if available@.len() > 0 {
                assert(available@.contains(available@[0]));
            }
        }
        mis
    }

    /// Schedules the block into waves: ids within a wave are pairwise
    /// non-conflicting under the recorded estimates; together the waves
    /// hold every transaction exactly once, each in ascending order.
    #[verifier::rlimit(100)]
    #[verifier::spinoff_prover]
    pub fn schedule<O: AccessOracle>(
        &self,
        block: &Block,
        access_builder: &AccessListBuilder<O>,
    ) -> (r: Vec<Vec<u64>>)
        requires
            crate::types::block_wf(block.transactions@),
            self.cap() >= 1,
        ensures
            ({
                let ids = block.transactions@.map_values(|tx: crate::types::Transaction| tx.id);
                let flat = wave_concat(r@.map_values(|w: Vec<u64>| w@));
                &&& flat.no_duplicates()
                &&& flat.to_set() == ids.to_set()
                &&& forall|wi: int|
                    0 <= wi < r@.len() ==> (#[trigger] r@[wi])@.len() >= 1 && r@[wi]@.len()
                        <= self.cap() && strictly_ascending(r@[wi]@)
                &&& forall|wi: int, a: int, b: int|
                    #![trigger r@[wi]@[a], r@[wi]@[b]]
                    0 <= wi < r@.len() && 0 <= a < r@[wi]@.len() && 0 <= b < r@[wi]@.len() && a != b
                        ==> !est_conflict(access_builder.estimated_map(), r@[wi]@[a], r@[wi]@[b])
                &&& (forall|t: int|
                    0 <= t < ids.len() ==> !access_builder.estimated_map().dom().contains(
                        #[trigger] ids[t],
                    )) ==> r@.len() == ids.len() && (forall|wi: int|
                    0 <= wi < r@.len() ==> (#[trigger] r@[wi])@ == seq![ids[wi]])
                &&& forall|wi: int, wj: int, b: int|
                    #![trigger r@[wi], r@[wj]@[b]]
                    0 <= wi < wj < r@.len() && 0 <= b < r@[wj]@.len() && r@[wi]@.len() < self.cap()
                        && access_builder.estimated_map().dom().contains(r@[wj]@[b]) ==> exists|
                        a: int,
                    |
                        0 <= a < r@[wi]@.len() && est_conflict(
                            access_builder.estimated_map(),
                            #[trigger] r@[wi]@[a],
                            r@[wj]@[b],
                        )
            }),
    {
        let n = block.transactions.len();
        let ghost ids = block.transactions@.map_values(|tx: crate::types::Transaction| tx.id);
        let mut access_sets: Vec<(u64, AccessSets)> = Vec::new();
        let mut i: usize = 0;
        while i < n
            invariant
                0 <= i <= n,
                n == block.transactions@.len(),
                ids == block.transactions@.map_values(|tx: crate::types::Transaction| tx.id),
                crate::types::block_wf(block.transactions@),
                forall|j: int|
                    0 <= j < access_sets@.len() ==> {
                        let e = #[trigger] access_sets@[j];
                        access_builder.estimated_map().dom().contains(e.0)
                            && e.1.reads@ == access_builder.estimated_map()[e.0].reads@
                            && e.1.writes@ == access_builder.estimated_map()[e.0].writes@ && exists|
                            t: int,
                        | 0 <= t < i && #[trigger] ids[t] == e.0
                    },
                forall|t: int|
                    0 <= t < i && access_builder.estimated_map().dom().contains(#[trigger] ids[t])
                        ==> exists|j: int|
                        0 <= j < access_sets@.len() && (#[trigger] access_sets@[j]).0 == ids[t],
                crate::graph::input_ids(access_sets@).no_duplicates(),
            decreases n - i,
        {
            let ghost before_push = access_sets@;
            match access_builder.get_estimated(block.transactions[i].id) {
                Some(s) => {
                    let entry_sets = s.clone();
                    let ghost before = access_sets@;
                    access_sets.push((block.transactions[i].id, entry_sets));
                    proof {
                        assert(ids[i as int] == block.transactions@[i as int].id);
                        assert(access_sets@[access_sets@.len() - 1].0 == ids[i as int]);
                        assert forall|t: int|
                            0 <= t < i + 1 && access_builder.estimated_map().dom().contains(
                                #[trigger] ids[t],
                            ) implies exists|j: int|
                            0 <= j < access_sets@.len() && (#[trigger] access_sets@[j]).0 == ids[t]
                            by {
                            if t < i {
                                let j = choose|j: int|
                                    0 <= j < before.len() && (#[trigger] before[j]).0 == ids[t];
                                assert(access_sets@[j].0 == ids[t]);
                            } else {
                                assert(access_sets@[access_sets@.len() - 1].0 == ids[t]);
                            }
                        }
                        assert(crate::graph::input_ids(access_sets@) =~= crate::graph::input_ids(
                            before,
                        ).push(ids[i as int]));
                        assert forall|a: int, b: int|
                            0 <= a < b < crate::graph::input_ids(access_sets@).len() implies
                            crate::graph::input_ids(access_sets@)[a] != crate::graph::input_ids(
                            access_sets@,
                        )[b] by {
                            let iidsn = crate::graph::input_ids(access_sets@);
                            if b == iidsn.len() - 1 {
                                let e = before[a];
                                assert(crate::graph::input_ids(before)[a] == e.0);
                                let t = choose|t: int| 0 <= t < i && #[trigger] ids[t] == e.0;
                                assert(ids[t] < ids[i as int]) by {
                                    assert(block.transactions@[t].id < block.transactions@[i as int].id);
                                }
                            }
                        }
                    }
                },
                None => {
                    proof {
                        assert(!access_builder.estimated_map().dom().contains(ids[i as int]));
                        assert forall|t: int|
                            0 <= t < i + 1 && access_builder.estimated_map().dom().contains(
                                #[trigger] ids[t],
                            ) implies exists|j: int|
                            0 <= j < access_sets@.len() && (#[trigger] access_sets@[j]).0 == ids[t]
                            by {
                            assert(t < i);
                        }
                    }
                },
            }
            i += 1;
        }
        let mut waves: Vec<Vec<u64>> = Vec::new();
        if access_sets.len() == 0 {
            // no estimates at all: one singleton wave per transaction
            let mut t: usize = 0;
            while t < n
                invariant
                    0 <= t <= n,
                    n == block.transactions@.len(),
                    ids == block.transactions@.map_values(|tx: crate::types::Transaction| tx.id),
                    crate::types::block_wf(block.transactions@),
                    waves@.len() == t,
                    forall|wi: int|
                        0 <= wi < t ==> (#[trigger] waves@[wi])@ =~= seq![ids[wi]],
                    wave_concat(waves@.map_values(|w: Vec<u64>| w@)) =~= ids.take(t as int),
                decreases n - t,
            {
                let mut w: Vec<u64> = Vec::new();
                w.push(block.transactions[t].id);
                proof {
                    assert(w@ =~= seq![ids[t as int]]);
                }
                let ghost waves0 = waves@;
                waves.push(w);
                proof {
                    let mapped = waves@.map_values(|w2: Vec<u64>| w2@);
                    let mapped0 = waves0.map_values(|w2: Vec<u64>| w2@);
                    assert(waves@.drop_last() =~= waves0);
                    assert(mapped.drop_last() =~= mapped0);
                    assert(mapped.last() == waves@.last()@);
                    assert(wave_concat(mapped) == wave_concat(mapped0) + mapped.last());
                    assert(ids.take(t + 1) =~= ids.take(t as int).push(ids[t as int]));
                    assert(wave_concat(mapped) =~= ids.take(t + 1));
                }
                t += 1;
            }
            proof {
                assert(ids.take(n as int) =~= ids);
                assert(crate::types::block_wf(block.transactions@));
                assert(ids.no_duplicates()) by {
                    assert forall|a: int, b: int| 0 <= a < b < ids.len() implies ids[a] != ids[b]
                        by {
                        assert(block.transactions@[a].id < block.transactions@[b].id);
                    }
                }
                // no transaction has an estimate on this path
                assert forall|t2: int|
                    0 <= t2 < ids.len() implies !access_builder.estimated_map().dom().contains(
                    #[trigger] ids[t2],
                ) by {
                    if access_builder.estimated_map().dom().contains(ids[t2]) {
                        assert(ids.contains(ids[t2]));
                        let j = choose|j: int|
                            0 <= j < access_sets@.len() && (#[trigger] access_sets@[j]).0
                                == ids[t2];
                    }
                }
                assert forall|wi: int, wj: int, b: int|
                    #![trigger waves@[wi], waves@[wj]@[b]]
                    0 <= wi < wj < waves@.len() && 0 <= b < waves@[wj]@.len() && waves@[wi]@.len()
                        < self.cap() && access_builder.estimated_map().dom().contains(
                        waves@[wj]@[b],
                    ) implies exists|a: int|
                    0 <= a < waves@[wi]@.len() && est_conflict(
                        access_builder.estimated_map(),
                        #[trigger] waves@[wi]@[a],
                        waves@[wj]@[b],
                    ) by {
                    assert(waves@[wj]@ =~= seq![ids[wj]]);
                    assert(waves@[wj]@[b] == ids[wj]);
                }
            }
            return waves;
        }
        proof {
            // some transaction has an estimate, so the degenerate clause is
            // vacuous on this path
            assert(!(forall|t: int|
                0 <= t < ids.len() ==> !access_builder.estimated_map().dom().contains(
                    #[trigger] ids[t],
                ))) by {
                assert(access_sets@.len() > 0);
                let e = access_sets@[0];
                let t = choose|t: int| 0 <= t < n && #[trigger] ids[t] == e.0;
                assert(access_builder.estimated_map().dom().contains(ids[t]));
            }
        }
        let graph = ConflictGraph::build(&access_sets);
        let mut remaining: Vec<u64> = Vec::new();
        let mut t: usize = 0;
        while t < n
            invariant
                0 <= t <= n,
                n == block.transactions@.len(),
                ids == block.transactions@.map_values(|tx: crate::types::Transaction| tx.id),
                remaining@ =~= ids.take(t as int),
            decreases n - t,
        {
            remaining.push(block.transactions[t].id);
            proof {
                assert(ids.take(t + 1) =~= ids.take(t as int).push(ids[t as int]));
            }
            t += 1;
        }
        proof {
            assert(remaining@ =~= ids);
            assert(ids.no_duplicates()) by {
                assert forall|a: int, b: int| 0 <= a < b < ids.len() implies ids[a] != ids[b] by {
                    assert(block.transactions@[a].id < block.transactions@[b].id);
                }
            }
            assert forall|x: u64|
                ids.contains(x) && access_builder.estimated_map().dom().contains(x) implies exists|
                    j: int,
                | 0 <= j < access_sets@.len() && (#[trigger] access_sets@[j]).0 == x by {
                let t = choose|t: int| 0 <= t < ids.len() && ids[t] == x;
            }
            assert(wave_concat(waves@.map_values(|w: Vec<u64>| w@)) =~= Seq::<u64>::empty());
        }
        while remaining.len() > 0
            invariant
                graph.wf(),
                remaining@.no_duplicates(),
                forall|u: u64, v: u64|
                    #[trigger] graph.adjacent(u, v) <==> pair_conflicts(access_sets@, u, v),
                forall|j: int|
                    0 <= j < access_sets@.len() ==> {
                        let e = #[trigger] access_sets@[j];
                        access_builder.estimated_map().dom().contains(e.0)
                            && e.1.reads@ == access_builder.estimated_map()[e.0].reads@
                            && e.1.writes@ == access_builder.estimated_map()[e.0].writes@
                    },
                crate::graph::input_ids(access_sets@).no_duplicates(),
                self.cap() >= 1,
                forall|x: u64|
                    ids.contains(x) && access_builder.estimated_map().dom().contains(x)
                        ==> exists|j: int|
                        0 <= j < access_sets@.len() && (#[trigger] access_sets@[j]).0 == x,
                ({
                    let flat = wave_concat(waves@.map_values(|w: Vec<u64>| w@));
                    &&& flat.no_duplicates()
                    &&& forall|x: u64| !(flat.contains(x) && remaining@.contains(x))
                    &&& forall|x: u64| flat.contains(x) || remaining@.contains(x) <==> ids.contains(
                        x,
                    )
                    &&& forall|wi: int|
                        0 <= wi < waves@.len() ==> (#[trigger] waves@[wi])@.len() >= 1
                            && waves@[wi]@.len() <= self.cap() && strictly_ascending(waves@[wi]@)
                    &&& forall|wi: int, a: int, b: int|
                        #![trigger waves@[wi]@[a], waves@[wi]@[b]]
                        0 <= wi < waves@.len() && 0 <= a < waves@[wi]@.len() && 0 <= b
                            < waves@[wi]@.len() && a != b ==> !est_conflict(
                            access_builder.estimated_map(),
                            waves@[wi]@[a],
                            waves@[wi]@[b],
                        )
                    &&& forall|wi: int, x: u64|
                        #![trigger waves@[wi], remaining@.contains(x)]
                        0 <= wi < waves@.len() && waves@[wi]@.len() < self.cap()
                            && remaining@.contains(x) ==> exists|a: int|
                            0 <= a < waves@[wi]@.len() && est_conflict(
                                access_builder.estimated_map(),
                                #[trigger] waves@[wi]@[a],
                                x,
                            )
                    &&& forall|wi: int, wj: int, b: int|
                        #![trigger waves@[wi], waves@[wj]@[b]]
                        0 <= wi < wj < waves@.len() && 0 <= b < waves@[wj]@.len()
                            && waves@[wi]@.len() < self.cap() ==> exists|a: int|
                            0 <= a < waves@[wi]@.len() && est_conflict(
                                access_builder.estimated_map(),
                                #[trigger] waves@[wi]@[a],
                                waves@[wj]@[b],
                            )
                }),
            decreases remaining@.len(),
        {
            let mis = self.find_mis(&graph, &remaining);
            let ghost mis_view = mis@;
            proof {
                assert(mis@.len() >= 1);
            }
            let wave: Vec<u64>;
            if mis.len() == 0 {
                let mut w: Vec<u64> = Vec::new();
                w.push(remaining[0]);
                proof {
                    assert(remaining@.contains(remaining@[0]));
                }
                wave = w;
            } else {
                wave = sort_ids(mis);
            }
            // remove the wave's ids from the remaining pool
            let mut next: Vec<u64> = Vec::new();
            let mut f: usize = 0;
            while f < remaining.len()
                invariant
                    0 <= f <= remaining@.len(),
                    remaining@.no_duplicates(),
                    next@.no_duplicates(),
                    forall|x: u64| next@.contains(x) ==> remaining@.contains(x),
                    forall|x: u64|
                        next@.contains(x) ==> exists|j: int| 0 <= j < f && remaining@[j] == x,
                    forall|x: u64| next@.contains(x) ==> !wave@.contains(x),
                    forall|j: int|
                        #![trigger remaining@[j]]
                        0 <= j < f ==> wave@.contains(remaining@[j]) || next@.contains(
                            remaining@[j],
                        ),
                decreases remaining@.len() - f,
            {
                let x = remaining[f];
                let keep = !crate::idmap::id_list_contains(&wave, x);
                if keep {
                    let ghost next0 = next@;
                    next.push(x);
                    proof {
                        assert(next@[next@.len() - 1] == x);
                        assert forall|y: u64| next@.contains(y) implies next0.contains(y) || y == x
                            by {
                            let j = choose|j: int| 0 <= j < next@.len() && next@[j] == y;
                            if j < next@.len() - 1 {
                                assert(next0[j] == y);
                            }
                        }
                        assert forall|y: u64| next0.contains(y) implies next@.contains(y) by {
                            let j = choose|j: int| 0 <= j < next0.len() && next0[j] == y;
                            assert(next@[j] == y);
                        }
                        assert(!next0.contains(x)) by {
                            if next0.contains(x) {
                                let a = choose|a: int| 0 <= a < f && remaining@[a] == x;
                                assert(remaining@[f as int] == x);
                            }
                        }
                        assert(next@.no_duplicates()) by {
                            assert forall|a: int, b2: int|
                                0 <= a < b2 < next@.len() implies next@[a] != next@[b2] by {
                                if b2 == next@.len() - 1 {
                                    assert(next0.contains(next@[a]));
                                }
                            }
                        }
                        assert forall|y: u64| next@.contains(y) implies exists|j: int|
                            0 <= j < f + 1 && remaining@[j] == y by {
                            if next0.contains(y) {
                                let j = choose|j: int| 0 <= j < f && remaining@[j] == y;
                                assert(0 <= j < f + 1 && remaining@[j] == y);
                            } else {
                                assert(y == x);
                                assert(remaining@[f as int] == y);
                            }
                        }
                    }
                } else {
                    proof {
                        assert forall|y: u64| next@.contains(y) implies exists|j: int|
                            0 <= j < f + 1 && remaining@[j] == y by {
                            let j = choose|j: int| 0 <= j < f && remaining@[j] == y;
                            assert(0 <= j < f + 1 && remaining@[j] == y);
                        }
                    }
                }
                f += 1;
            }
            let ghost waves0 = waves@;
            let ghost rem0 = remaining@;
            waves.push(wave);
            remaining = next;
            proof {
                // the pool shrinks by at least the first wave member
                assert(wave@.len() >= 1);
                assert(wave@.contains(wave@[0]));
                assert(wave@.to_set().contains(wave@[0]));
                assert(mis_view.to_set().contains(wave@[0]));
                assert(mis_view.contains(wave@[0]));
                assert(rem0.contains(wave@[0]));
                rem0.unique_seq_to_set();
                remaining@.unique_seq_to_set();
                assert(remaining@.to_set().subset_of(rem0.to_set().remove(wave@[0]))) by {
                    assert forall|x: u64| remaining@.to_set().contains(x) implies
                        rem0.to_set().remove(wave@[0]).contains(x) by {
                        assert(rem0.contains(x));
                        assert(!wave@.contains(x));
                        if x == wave@[0] {
                            assert(wave@.contains(x));
                        }
                    }
                }
                assert(rem0.to_set().contains(wave@[0]));
                assert(rem0.to_set().remove(wave@[0]).len() == rem0.to_set().len() - 1);
                vstd::set_lib::lemma_len_subset(remaining@.to_set(), rem0.to_set().remove(wave@[0]));
                let mapped = waves@.map_values(|w2: Vec<u64>| w2@);
                let mapped0 = waves0.map_values(|w2: Vec<u64>| w2@);
                assert(mapped.drop_last() =~= mapped0);
                assert(waves@.last() == wave);
                assert(wave_concat(mapped) == wave_concat(mapped0) + wave@);
                let flat0 = wave_concat(mapped0);
                let flat = wave_concat(mapped);
                // what the concatenation holds
                assert forall|x: u64| flat.contains(x) implies flat0.contains(x) || wave@.contains(
                    x,
                ) by {
                    let j = choose|j: int| 0 <= j < flat.len() && flat[j] == x;
                    if j < flat0.len() {
                        assert(flat0[j] == x);
                    } else {
                        assert(wave@[j - flat0.len()] == x);
                    }
                }
                assert forall|x: u64| flat0.contains(x) implies flat.contains(x) by {
                    let j = choose|j: int| 0 <= j < flat0.len() && flat0[j] == x;
                    assert(flat[j] == x);
                }
                assert forall|x: u64| wave@.contains(x) implies flat.contains(x) by {
                    let j = choose|j: int| 0 <= j < wave@.len() && wave@[j] == x;
                    assert(flat[flat0.len() + j] == x);
                }
                // the wave came from the old remaining pool
                assert forall|x: u64| wave@.contains(x) implies rem0.contains(x) by {
                    assert(wave@.to_set().contains(x));
                    assert(mis_view.to_set().contains(x));
                    assert(mis_view.contains(x));
                }
                // no duplicates across the concatenation
                assert(flat.no_duplicates()) by {
                    assert forall|a: int, b: int| 0 <= a < b < flat.len() implies flat[a] != flat[b]
                        by {
                        if b < flat0.len() {
                        } else if a >= flat0.len() {
                            assert(flat[a] == wave@[a - flat0.len()]);
                            assert(flat[b] == wave@[b - flat0.len()]);
                        } else {
                            assert(flat[a] == flat0[a]);
                            assert(flat[b] == wave@[b - flat0.len()]);
                            assert(flat0.contains(flat[a]));
                            assert(rem0.contains(flat[b]));
                        }
                    }
                }
                // the new pool misses the committed wave and keeps the rest
                assert forall|x: u64| !(flat.contains(x) && remaining@.contains(x)) by {
                    if remaining@.contains(x) {
                        assert(rem0.contains(x));
                        assert(!wave@.contains(x));
                        assert(!flat0.contains(x));
                    }
                }
                assert forall|x: u64| flat.contains(x) || remaining@.contains(x) implies
                    ids.contains(x) by {
                    if flat.contains(x) {
                        if flat0.contains(x) {
                        } else {
                            assert(rem0.contains(x));
                        }
                    } else {
                        assert(rem0.contains(x));
                    }
                }
                assert forall|x: u64| ids.contains(x) implies flat.contains(x)
                    || remaining@.contains(x) by {
                    if !flat0.contains(x) {
                        assert(rem0.contains(x));
                        let j = choose|j: int| 0 <= j < rem0.len() && rem0[j] == x;
                        assert(wave@.contains(rem0[j]) || remaining@.contains(rem0[j]));
                    }
                }
                // wave shape
                assert forall|wi: int|
                    0 <= wi < waves@.len() implies (#[trigger] waves@[wi])@.len() >= 1
                        && waves@[wi]@.len() <= self.cap() && strictly_ascending(waves@[wi]@) by {
                    if wi < waves0.len() {
                        assert(waves@[wi] == waves0[wi]);
                    } else {
                        assert(waves@[wi] == wave);
                    }
                }
                // no estimated conflict inside the new wave
                assert forall|wi: int, a: int, b: int|
                    #![trigger waves@[wi]@[a], waves@[wi]@[b]]
                    0 <= wi < waves@.len() && 0 <= a < waves@[wi]@.len() && 0 <= b
                        < waves@[wi]@.len() && a != b implies !est_conflict(
                    access_builder.estimated_map(),
                    waves@[wi]@[a],
                    waves@[wi]@[b],
                ) by {
                    if wi < waves0.len() {
                        assert(waves@[wi] == waves0[wi]);
                    } else {
                        assert(waves@[wi] == wave);
                        let u = wave@[a];
                        let v = wave@[b];
                        assert(u != v) by {
                            if a < b {
                                assert(wave@[a] < wave@[b]);
                            } else {
                                assert(wave@[b] < wave@[a]);
                            }
                        }
                        if est_conflict(access_builder.estimated_map(), u, v) {
                            let m = access_builder.estimated_map();
                            let ju = choose|j: int|
                                0 <= j < access_sets@.len() && (#[trigger] access_sets@[j]).0 == u;
                            let jv = choose|j: int|
                                0 <= j < access_sets@.len() && (#[trigger] access_sets@[j]).0 == v;
                            assert(ids.contains(u)) by {
                                assert(rem0.contains(u));
                            }
                            assert(ids.contains(v)) by {
                                assert(rem0.contains(v));
                            }
                            assert(access_sets@[ju].1.read_set() == m[u].read_set());
                            assert(access_sets@[ju].1.write_set() == m[u].write_set());
                            assert(access_sets@[jv].1.read_set() == m[v].read_set());
                            assert(access_sets@[jv].1.write_set() == m[v].write_set());
                            assert(ju != jv) by {
                                assert(access_sets@[ju].0 != access_sets@[jv].0);
                            }
                            assert(pair_conflicts(access_sets@, u, v));
                            assert(graph.adjacent(u, v));
                            // but the wave is independent in the graph
                            assert(wave@.to_set().contains(u));
                            assert(wave@.to_set().contains(v));
                            assert(mis_view.to_set().contains(u));
                            assert(mis_view.to_set().contains(v));
                            let iu = choose|iu: int|
                                0 <= iu < mis_view.len() && mis_view[iu] == u;
                            let iv = choose|iv: int|
                                0 <= iv < mis_view.len() && mis_view[iv] == v;
                            assert(iu != iv);
                            assert(!graph.adjacent(mis_view[iu], mis_view[iv]));
                            assert(false);
                        }
                    }
                }
                // an emitted wave below the cap dominates everything left
                let emap = access_builder.estimated_map();
                assert forall|x: u64|
                    remaining@.contains(x) && wave@.len() < self.cap() implies exists|a: int|
                    0 <= a < wave@.len() && est_conflict(emap, wave@[a], x) by {
                    assert(rem0.contains(x));
                    assert(!wave@.contains(x));
                    assert(!mis_view.contains(x)) by {
                        if mis_view.contains(x) {
                            assert(mis_view.to_set().contains(x));
                            assert(wave@.to_set().contains(x));
                        }
                    }
                    assert(mis_view.len() < self.cap());
                    assert(mis_view.contains(x) || exists|u: u64|
                        mis_view.contains(u) && graph.adjacent(u, x));
                    let u = choose|u: u64| mis_view.contains(u) && graph.adjacent(u, x);
                    assert(wave@.contains(u)) by {
                        assert(mis_view.to_set().contains(u));
                        assert(wave@.to_set().contains(u));
                    }
                    let a = choose|a: int| 0 <= a < wave@.len() && wave@[a] == u;
                    assert(pair_conflicts(access_sets@, u, x));
                    let (i2, j2) = choose|i2: int, j2: int|
                        0 <= i2 < access_sets@.len() && 0 <= j2 < access_sets@.len() && i2 != j2
                            && (#[trigger] access_sets@[i2]).0 == u && (
                        #[trigger] access_sets@[j2]).0 == x && sets_conflict(
                            access_sets@[i2].1.read_set(),
                            access_sets@[i2].1.write_set(),
                            access_sets@[j2].1.read_set(),
                            access_sets@[j2].1.write_set(),
                        );
                    assert(emap.dom().contains(u));
                    assert(emap.dom().contains(x));
                    assert(access_sets@[i2].1.read_set() == emap[u].read_set());
                    assert(access_sets@[i2].1.write_set() == emap[u].write_set());
                    assert(access_sets@[j2].1.read_set() == emap[x].read_set());
                    assert(access_sets@[j2].1.write_set() == emap[x].write_set());
                    assert(est_conflict(emap, u, x));
                }
                // the wave came from the pool, so the older waves dominate it
                assert forall|b: int| 0 <= b < wave@.len() implies rem0.contains(
                    #[trigger] wave@[b],
                ) by {
                    assert(wave@.contains(wave@[b]));
                    assert(wave@.to_set().contains(wave@[b]));
                    assert(mis_view.to_set().contains(wave@[b]));
                    assert(mis_view.contains(wave@[b]));
                }
                assert forall|wi: int, x: u64|
                    #![trigger waves@[wi], remaining@.contains(x)]
                    0 <= wi < waves@.len() && waves@[wi]@.len() < self.cap()
                        && remaining@.contains(x) implies exists|a: int|
                    0 <= a < waves@[wi]@.len() && est_conflict(
                        emap,
                        #[trigger] waves@[wi]@[a],
                        x,
                    ) by {
                    if wi < waves0.len() {
                        assert(waves@[wi] == waves0[wi]);
                        assert(rem0.contains(x));
                        let a = choose|a: int|
                            0 <= a < waves0[wi]@.len() && est_conflict(emap, waves0[wi]@[a], x);
                        assert(0 <= a < waves@[wi]@.len() && est_conflict(emap, waves@[wi]@[a], x));
                    } else {
                        assert(waves@[wi] == wave);
                        let a = choose|a: int|
                            0 <= a < wave@.len() && est_conflict(emap, wave@[a], x);
                        assert(0 <= a < waves@[wi]@.len() && est_conflict(emap, waves@[wi]@[a], x));
                    }
                }
                assert forall|wi: int, wj: int, b: int|
                    #![trigger waves@[wi], waves@[wj]@[b]]
                    0 <= wi < wj < waves@.len() && 0 <= b < waves@[wj]@.len() && waves@[wi]@.len()
                        < self.cap() implies exists|a: int|
                    0 <= a < waves@[wi]@.len() && est_conflict(
                        emap,
                        #[trigger] waves@[wi]@[a],
                        waves@[wj]@[b],
                    ) by {
                    if wj < waves0.len() {
                        assert(waves@[wi] == waves0[wi]);
                        assert(waves@[wj] == waves0[wj]);
                        let a = choose|a: int|
                            0 <= a < waves0[wi]@.len() && est_conflict(
                                emap,
                                waves0[wi]@[a],
                                waves0[wj]@[b],
                            );
                        assert(0 <= a < waves@[wi]@.len() && est_conflict(
                            emap,
                            waves@[wi]@[a],
                            waves@[wj]@[b],
                        ));
                    } else {
                        assert(waves@[wj] == wave);
                        assert(waves@[wi] == waves0[wi]);
                        let x = wave@[b];
                        assert(rem0.contains(x));
                        let a = choose|a: int|
                            0 <= a < waves0[wi]@.len() && est_conflict(emap, waves0[wi]@[a], x);
                        assert(0 <= a < waves@[wi]@.len() && est_conflict(
                            emap,
                            waves@[wi]@[a],
                            waves@[wj]@[b],
                        ));
                    }
                }
            }
        }
        waves
    }
}

/// Whether the recorded estimates of two ids conflict.
pub open spec fn est_conflict(m: Map<u64, AccessSets>, u: u64, v: u64) -> bool {
    m.dom().contains(u) && m.dom().contains(v) && sets_conflict(
        m[u].read_set(),
        m[u].write_set(),
        m[v].read_set(),
        m[v].write_set(),
    )
}

} // verus!
