//! Pre-execution access-set estimation and the access-list builder.
use vstd::prelude::*;
use crate::idmap::IdMap;
use crate::types::AccessSets;
use crate::types::ExecutionResult;
use crate::types::Key;
use crate::types::MicroOp;
use crate::types::Transaction;
use crate::types::key_add;
use crate::types::key_seq_union;

verus! {

/// The reads and writes a program scan contributes: `SLoad` keys read,
/// `SStore` keys written.
pub open spec fn scan_program(prog: Seq<MicroOp>, rs: Seq<Key>, ws: Seq<Key>) -> (Seq<Key>, Seq<
    Key,
>)
    decreases prog.len(),
{
    if prog.len() == 0 {
        (rs, ws)
    } else {
        match prog[0] {
            MicroOp::SLoad(k) => scan_program(prog.skip(1), key_add(rs, k), ws),
            MicroOp::SStore(k, v) => scan_program(prog.skip(1), rs, key_add(ws, k)),
            _ => scan_program(prog.skip(1), rs, ws),
        }
    }
}

/// The estimated reads of a transaction: declared reads, then the advisory
/// access list, then the program's loads.
pub open spec fn spec_estimate(tx: Transaction) -> (Seq<Key>, Seq<Key>) {
    let rs0 = key_seq_union(key_seq_union(Seq::<Key>::empty(), tx.reads@), tx.metadata.access_list@);
    let ws0 = key_seq_union(Seq::<Key>::empty(), tx.writes@);
    scan_program(tx.metadata.program@, rs0, ws0)
}

/// An estimator of the keys a transaction will read and write.
pub trait AccessOracle: Sized {
    /// The estimate this oracle assigns; the same transaction always gets
    /// the same estimate.
    spec fn oracle_estimate(&self, tx: Transaction) -> (Seq<Key>, Seq<Key>);

    /// Estimates the access sets of a transaction from its static form.
    fn estimate_access_sets(&self, tx: &Transaction) -> (r: AccessSets)
        ensures
            r.reads@ == self.oracle_estimate(*tx).0,
            r.writes@ == self.oracle_estimate(*tx).1,
            r.wf(),
    ;
}

/// The rule-based estimator: declared sets, the advisory access list, and a
/// static scan of the program.
#[derive(Debug)]
pub struct HeuristicOracle {
    marker: bool,
}

impl HeuristicOracle {
    pub fn new() -> (r: HeuristicOracle) {
        HeuristicOracle { marker: true }
    }
}

impl AccessOracle for HeuristicOracle {
    open spec fn oracle_estimate(&self, tx: Transaction) -> (Seq<Key>, Seq<Key>) {
        spec_estimate(tx)
    }

    fn estimate_access_sets(&self, tx: &Transaction) -> (r: AccessSets) {
        let mut sets = AccessSets::new();
        let mut i: usize = 0;
        while i < tx.reads.len()
            invariant
                0 <= i <= tx.reads@.len(),
                sets.wf(),
                sets.reads@ == key_seq_union(Seq::<Key>::empty(), tx.reads@.take(i as int)),
                sets.writes@ == Seq::<Key>::empty(),
            decreases tx.reads@.len() - i,
        {
            proof {
                assert(tx.reads@.take(i + 1).drop_last() =~= tx.reads@.take(i as int));
                assert(tx.reads@.take(i + 1).last() == tx.reads@[i as int]);
                crate::types::lemma_key_add_no_dup(sets.reads@, tx.reads@[i as int]);
            }
            sets.add_read(tx.reads[i]);
            i += 1;
        }
        proof {
            assert(tx.reads@.take(tx.reads@.len() as int) =~= tx.reads@);
        }
        let mut j: usize = 0;
        while j < tx.writes.len()
            invariant
                0 <= j <= tx.writes@.len(),
                sets.wf(),
                sets.reads@ == key_seq_union(Seq::<Key>::empty(), tx.reads@),
                sets.writes@ == key_seq_union(Seq::<Key>::empty(), tx.writes@.take(j as int)),
            decreases tx.writes@.len() - j,
        {
            proof {
                assert(tx.writes@.take(j + 1).drop_last() =~= tx.writes@.take(j as int));
                assert(tx.writes@.take(j + 1).last() == tx.writes@[j as int]);
                crate::types::lemma_key_add_no_dup(sets.writes@, tx.writes@[j as int]);
            }
            sets.add_write(tx.writes[j]);
            j += 1;
        }
        proof {
            assert(tx.writes@.take(tx.writes@.len() as int) =~= tx.writes@);
        }
        let mut a: usize = 0;
        let ghost rs1 = key_seq_union(Seq::<Key>::empty(), tx.reads@);
        while a < tx.metadata.access_list.len()
            invariant
                0 <= a <= tx.metadata.access_list@.len(),
                sets.wf(),
                sets.reads@ == key_seq_union(rs1, tx.metadata.access_list@.take(a as int)),
                sets.writes@ == key_seq_union(Seq::<Key>::empty(), tx.writes@),
                rs1 == key_seq_union(Seq::<Key>::empty(), tx.reads@),
            decreases tx.metadata.access_list@.len() - a,
        {
            proof {
                assert(tx.metadata.access_list@.take(a + 1).drop_last()
                    =~= tx.metadata.access_list@.take(a as int));
                assert(tx.metadata.access_list@.take(a + 1).last() == tx.metadata.access_list@[a as int]);
                crate::types::lemma_key_add_no_dup(sets.reads@, tx.metadata.access_list@[a as int]);
            }
            sets.add_read(tx.metadata.access_list[a]);
            a += 1;
        }
        proof {
            assert(tx.metadata.access_list@.take(tx.metadata.access_list@.len() as int)
                =~= tx.metadata.access_list@);
            assert(key_seq_union(rs1, tx.metadata.access_list@.take(
                tx.metadata.access_list@.len() as int,
            )) == key_seq_union(rs1, tx.metadata.access_list@));
        }
        let ghost prog = tx.metadata.program@;
        let ghost rs0 = sets.reads@;
        let ghost ws0 = sets.writes@;
        proof {
            assert(prog.skip(0) =~= prog);
        }
        let mut p: usize = 0;
        while p < tx.metadata.program.len()
            invariant
                0 <= p <= prog.len(),
                prog == tx.metadata.program@,
                sets.wf(),
                scan_program(prog, rs0, ws0) == scan_program(
                    prog.skip(p as int),
                    sets.reads@,
                    sets.writes@,
                ),
            decreases prog.len() - p,
        {
            proof {
                assert(prog.skip(p as int)[0] == prog[p as int]);
                assert(prog.skip(p as int).skip(1) =~= prog.skip(p + 1));
            }
            match &tx.metadata.program[p] {
                MicroOp::SLoad(k) => {
                    proof {
                        crate::types::lemma_key_add_no_dup(sets.reads@, *k);
                    }
                    sets.add_read(*k);
                },
                MicroOp::SStore(k, v) => {
                    proof {
                        crate::types::lemma_key_add_no_dup(sets.writes@, *k);
                    }
                    sets.add_write(*k);
                },
                _ => {},
            }
            p += 1;
        }
        proof {
            assert(prog.skip(prog.len() as int) =~= Seq::<MicroOp>::empty());
        }
        sets
    }
}

/// The oracle that reports the exact sets observed by an execution.
#[derive(Debug)]
pub struct PostExecutionOracle {
    marker: bool,
}

impl PostExecutionOracle {
    pub fn new() -> (r: PostExecutionOracle) {
        PostExecutionOracle { marker: true }
    }

    /// The access sets a finished execution reported.
    pub fn exact_access_sets(&self, result: &ExecutionResult) -> (r: AccessSets)
        ensures
            r.reads@ == result.access_sets.reads@,
            r.writes@ == result.access_sets.writes@,
    {
        result.access_sets.clone()
    }
}

/// Records estimated access sets before execution and exact ones after.
#[derive(Debug)]
pub struct AccessListBuilder<O: AccessOracle> {
    oracle: O,
    estimated: IdMap<AccessSets>,
    exact: IdMap<AccessSets>,
}

impl<O: AccessOracle> AccessListBuilder<O> {
    /// The recorded estimates.
    pub closed spec fn estimated_map(&self) -> Map<u64, AccessSets> {
        self.estimated@
    }

    /// The recorded exact sets.
    pub closed spec fn exact_map(&self) -> Map<u64, AccessSets> {
        self.exact@
    }

    /// The oracle in use.
    pub closed spec fn oracle_ref(&self) -> &O {
        &self.oracle
    }

    pub fn new(oracle: O) -> (r: AccessListBuilder<O>)
        ensures
            r.estimated_map() == Map::<u64, AccessSets>::empty(),
            r.exact_map() == Map::<u64, AccessSets>::empty(),
            r.oracle_ref() == oracle,
    {
        AccessListBuilder { oracle, estimated: IdMap::new(), exact: IdMap::new() }
    }

    /// Estimates a transaction's sets and records them under its id.
    pub fn estimate_before_execution(&mut self, tx: &Transaction)
        ensures
            ({
                let est = final(self).estimated_map()[tx.id];
                &&& final(self).estimated_map().dom() == old(self).estimated_map().dom().insert(
                    tx.id,
                )
                &&& est.reads@ == old(self).oracle_ref().oracle_estimate(*tx).0
                &&& est.writes@ == old(self).oracle_ref().oracle_estimate(*tx).1
                &&& est.wf()
                &&& forall|id: u64|
                    id != tx.id && old(self).estimated_map().dom().contains(id)
                        ==> final(self).estimated_map()[id] == old(self).estimated_map()[id]
            }),
            final(self).exact_map() == old(self).exact_map(),
            final(self).oracle_ref() == old(self).oracle_ref(),
    {
        let sets = self.oracle.estimate_access_sets(tx);
        self.estimated.insert(tx.id, sets);
    }

    /// Records the exact sets a finished execution reported.
    pub fn record_after_execution(&mut self, result: &ExecutionResult)
        ensures
            ({
                let ex = final(self).exact_map()[result.tx_id];
                &&& final(self).exact_map().dom() == old(self).exact_map().dom().insert(
                    result.tx_id,
                )
                &&& ex.reads@ == result.access_sets.reads@
                &&& ex.writes@ == result.access_sets.writes@
                &&& forall|id: u64|
                    id != result.tx_id && old(self).exact_map().dom().contains(id)
                        ==> final(self).exact_map()[id] == old(self).exact_map()[id]
            }),
            final(self).estimated_map() == old(self).estimated_map(),
            final(self).oracle_ref() == old(self).oracle_ref(),
    {
        let sets = result.access_sets.clone();
        self.exact.insert(result.tx_id, sets);
    }

    /// The estimate recorded for an id, if any.
    pub fn get_estimated(&self, tx_id: u64) -> (r: Option<&AccessSets>)
        ensures
            match r {
                Some(s) => self.estimated_map().dom().contains(tx_id)
                    && *s == self.estimated_map()[tx_id],
                None => !self.estimated_map().dom().contains(tx_id),
            },
    {
        self.estimated.get(tx_id)
    }

    /// The exact sets recorded for an id, if any.
    pub fn get_exact(&self, tx_id: u64) -> (r: Option<&AccessSets>)
        ensures
            match r {
                Some(s) => self.exact_map().dom().contains(tx_id) && *s == self.exact_map()[tx_id],
                None => !self.exact_map().dom().contains(tx_id),
            },
    {
        self.exact.get(tx_id)
    }

    /// Forgets everything recorded.
    pub fn clear(&mut self)
        ensures
            final(self).estimated_map() == Map::<u64, AccessSets>::empty(),
            final(self).exact_map() == Map::<u64, AccessSets>::empty(),
            final(self).oracle_ref() == old(self).oracle_ref(),
    {
        self.estimated.clear();
        self.exact.clear();
    }
}

impl AccessListBuilder<HeuristicOracle> {
    /// A builder over the rule-based estimator.
    pub fn with_heuristic() -> (r: AccessListBuilder<HeuristicOracle>)
        ensures
            r.estimated_map() == Map::<u64, AccessSets>::empty(),
            r.exact_map() == Map::<u64, AccessSets>::empty(),
    {
        AccessListBuilder::new(HeuristicOracle::new())
    }
}

/// Estimation is idempotent: one oracle gives one transaction one estimate,
/// so two estimates of the same transaction are equal.
pub proof fn lemma_estimate_idempotent<O: AccessOracle>(
    o: &O,
    tx: Transaction,
    a: AccessSets,
    b: AccessSets,
)
    requires
        a.reads@ == o.oracle_estimate(tx).0,
        a.writes@ == o.oracle_estimate(tx).1,
        b.reads@ == o.oracle_estimate(tx).0,
        b.writes@ == o.oracle_estimate(tx).1,
    ensures
        a.reads@ == b.reads@,
        a.writes@ == b.writes@,
{
}

} // verus!
