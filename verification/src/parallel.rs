//! The parallel wave executor: optimistic batched execution with runtime
//! conflict detection, deferral, and re-queueing, committed in id order.
use rayon::iter::IntoParallelRefIterator;
use rayon::iter::ParallelIterator;
use vstd::prelude::*;
use crate::evm::EvmState;
use crate::evm::ExecutionContext;
use crate::storage::lemma_memory_store_views;
use crate::evm::ResultModel;
use crate::evm::StepError;
use crate::evm::commit_writes;
use crate::evm::res_view;
use crate::evm::result_model_of;
use crate::evm::sat_add;
use crate::evm::spec_run;
use crate::evm::tx_start;
use crate::idmap::IdMap;
use crate::mis::MIScheduler;
use crate::oracle::AccessListBuilder;
use crate::oracle::AccessOracle;
use crate::storage::KVStore;
use crate::storage::MemoryStore;
use crate::types::AccessSets;
use crate::types::Block;
use crate::types::ExecutionResult;
use crate::types::Key;
use crate::types::Transaction;
use crate::types::U256;
use crate::types::key_seq_union;
use crate::types::sets_conflict;

verus! {

/// What one transaction does when run alone on a storage view with the
/// given warm keys and no gas limit.
pub open spec fn tx_outcome(tx: Transaction, st: Map<Key, U256>, warm: Seq<Key>) -> (
    EvmState,
    Option<StepError>,
) {
    spec_run(
        tx.metadata.program@,
        tx_start(
            tx,
            EvmState {
                storage: st,
                warm,
                cold: Seq::<Key>::empty(),
                reads: Seq::<Key>::empty(),
                writes: Seq::<Key>::empty(),
                gas: 0,
                stack: Seq::<nat>::empty(),
            },
        ),
        u64::MAX as int,
    )
}

/// The running state of one detection-and-commit pass over a batch.
pub struct RoundAcc {
    pub storage: Map<Key, U256>,
    pub warm: Seq<Key>,
    pub results: Map<u64, ResultModel>,
    pub wave: Seq<u64>,
    pub rejected: Seq<Transaction>,
    pub comm_r: Set<Key>,
    pub comm_w: Set<Key>,
    pub def_r: Set<Key>,
    pub def_w: Set<Key>,
    pub gas: int,
}

/// One batch, walked in ascending id order: every transaction ran on the
/// same snapshot; a transaction whose observed sets conflict with an
/// already-accepted or an already-deferred one is deferred, the rest are
/// committed in order.
pub open spec fn spec_round(
    batch: Seq<Transaction>,
    st0: Map<Key, U256>,
    warm0: Seq<Key>,
    acc: RoundAcc,
) -> RoundAcc
    decreases batch.len(),
{
    if batch.len() == 0 {
        acc
    } else {
        let prev = spec_round(batch.drop_last(), st0, warm0, acc);
        let tx = batch.last();
        let (mend, err) = tx_outcome(tx, st0, warm0);
        let rm = result_model_of(tx, mend, err);
        let rset = rm.reads.to_set();
        let wset = rm.writes.to_set();
        if sets_conflict(rset, wset, prev.comm_r, prev.comm_w) || sets_conflict(
            rset,
            wset,
            prev.def_r,
            prev.def_w,
        ) {
            RoundAcc {
                rejected: prev.rejected.push(tx),
                def_r: prev.def_r.union(rset),
                def_w: prev.def_w.union(wset),
                ..prev
            }
        } else {
            RoundAcc {
                storage: if err is None {
                    commit_writes(prev.storage, mend.storage, rm.writes)
                } else {
                    prev.storage
                },
                warm: if err is None {
                    key_seq_union(prev.warm, rm.warm)
                } else {
                    prev.warm
                },
                results: prev.results.insert(tx.id, rm),
                wave: prev.wave.push(tx.id),
                comm_r: prev.comm_r.union(rset),
                comm_w: prev.comm_w.union(wset),
                gas: if err is None {
                    sat_add(prev.gas, rm.gas_used)
                } else {
                    prev.gas
                },
                ..prev
            }
        }
    }
}

/// The executor state carried between rounds.
pub struct ParState {
    pub storage: Map<Key, U256>,
    pub warm: Seq<Key>,
    pub results: Map<u64, ResultModel>,
    pub waves: Seq<Seq<u64>>,
    pub total_gas: int,
}

/// A fresh accumulator for a round of this state.
pub open spec fn round_init(st: ParState) -> RoundAcc {
    RoundAcc {
        storage: st.storage,
        warm: st.warm,
        results: st.results,
        wave: Seq::<u64>::empty(),
        rejected: Seq::<Transaction>::empty(),
        comm_r: Set::<Key>::empty(),
        comm_w: Set::<Key>::empty(),
        def_r: Set::<Key>::empty(),
        def_w: Set::<Key>::empty(),
        gas: st.total_gas,
    }
}

/// The state after a round: a nonempty committed wave is recorded.
pub open spec fn after_round(st: ParState, acc: RoundAcc) -> ParState {
    ParState {
        storage: acc.storage,
        warm: acc.warm,
        results: acc.results,
        waves: if acc.wave.len() > 0 {
            st.waves.push(acc.wave)
        } else {
            st.waves
        },
        total_gas: acc.gas,
    }
}

/// Each batch member is either committed or deferred, and the committed
/// wave never shrinks.
pub proof fn lemma_round_counts(
    batch: Seq<Transaction>,
    st0: Map<Key, U256>,
    warm0: Seq<Key>,
    acc: RoundAcc,
)
    ensures
        ({
            let a = spec_round(batch, st0, warm0, acc);
            &&& a.wave.len() + a.rejected.len() == acc.wave.len() + acc.rejected.len()
                + batch.len()
            &&& a.wave.len() >= acc.wave.len()
            &&& a.rejected.len() >= acc.rejected.len()
        }),
    decreases batch.len(),
{
    if batch.len() > 0 {
        lemma_round_counts(batch.drop_last(), st0, warm0, acc);
    }
}

/// A round over a nonempty batch from a fresh accumulator commits at least
/// its first transaction.
pub proof fn lemma_round_progress(
    batch: Seq<Transaction>,
    st0: Map<Key, U256>,
    warm0: Seq<Key>,
    acc: RoundAcc,
)
    requires
        batch.len() >= 1,
        acc.comm_r == Set::<Key>::empty(),
        acc.comm_w == Set::<Key>::empty(),
        acc.def_r == Set::<Key>::empty(),
        acc.def_w == Set::<Key>::empty(),
        acc.wave.len() == 0,
        acc.rejected.len() == 0,
    ensures
        spec_round(batch, st0, warm0, acc).wave.len() >= 1,
        spec_round(batch, st0, warm0, acc).rejected.len() < batch.len(),
    decreases batch.len(),
{
    lemma_round_counts(batch, st0, warm0, acc);
    if batch.len() == 1 {
        let tx = batch.last();
        let (mend, err) = tx_outcome(tx, st0, warm0);
        let rm = result_model_of(tx, mend, err);
        assert(batch.drop_last().len() == 0);
        assert(spec_round(batch.drop_last(), st0, warm0, acc) == acc);
        assert(!sets_conflict(rm.reads.to_set(), rm.writes.to_set(), acc.comm_r, acc.comm_w)) by {
            if crate::types::sets_intersect(rm.writes.to_set(), acc.comm_w) {
                let k = choose|k: Key|
                    rm.writes.to_set().contains(k) && acc.comm_w.contains(k);
            }
            if crate::types::sets_intersect(rm.writes.to_set(), acc.comm_r) {
                let k = choose|k: Key|
                    rm.writes.to_set().contains(k) && acc.comm_r.contains(k);
            }
            if crate::types::sets_intersect(rm.reads.to_set(), acc.comm_w) {
                let k = choose|k: Key| rm.reads.to_set().contains(k) && acc.comm_w.contains(k);
            }
        }
        assert(!sets_conflict(rm.reads.to_set(), rm.writes.to_set(), acc.def_r, acc.def_w)) by {
            if crate::types::sets_intersect(rm.writes.to_set(), acc.def_w) {
                let k = choose|k: Key| rm.writes.to_set().contains(k) && acc.def_w.contains(k);
            }
            if crate::types::sets_intersect(rm.writes.to_set(), acc.def_r) {
                let k = choose|k: Key| rm.writes.to_set().contains(k) && acc.def_r.contains(k);
            }
            if crate::types::sets_intersect(rm.reads.to_set(), acc.def_w) {
                let k = choose|k: Key| rm.reads.to_set().contains(k) && acc.def_w.contains(k);
            }
        }
    } else {
        lemma_round_progress(batch.drop_last(), st0, warm0, acc);
        lemma_round_counts(batch.drop_last(), st0, warm0, acc);
    }
}

/// The smaller of two lengths.
pub open spec fn min_len(a: nat, b: nat) -> nat {
    if a < b {
        a
    } else {
        b
    }
}

/// Rounds run until the pending queue empties: each round takes the batch
/// of the first `cap` pending transactions, and re-queues its deferred
/// transactions ahead of the rest.
pub open spec fn spec_rounds(pending: Seq<Transaction>, cap: nat, st: ParState) -> ParState
    decreases pending.len(),
        via spec_rounds_dec
{
    if pending.len() == 0 || cap == 0 {
        st
    } else {
        let n = min_len(pending.len(), cap) as int;
        let acc = spec_round(pending.take(n), st.storage, st.warm, round_init(st));
        spec_rounds(acc.rejected + pending.skip(n), cap, after_round(st, acc))
    }
}

#[via_fn]
proof fn spec_rounds_dec(pending: Seq<Transaction>, cap: nat, st: ParState) {
    if pending.len() != 0 && cap != 0 {
        let n = min_len(pending.len(), cap) as int;
        lemma_round_progress(pending.take(n), st.storage, st.warm, round_init(st));
    }
}

/// The starting state over a storage view.
pub open spec fn par_init(storage: Map<Key, U256>) -> ParState {
    ParState {
        storage,
        warm: Seq::<Key>::empty(),
        results: Map::<u64, ResultModel>::empty(),
        waves: Seq::<Seq<u64>>::empty(),
        total_gas: 0,
    }
}

/// The transactions an index queue names, in queue order.
pub open spec fn idx_txs(txs: Seq<Transaction>, idxs: Seq<usize>) -> Seq<Transaction> {
    idxs.map_values(|i: usize| txs[i as int])
}

/// What running one batch entry in isolation must yield: the result and
/// task storage that `tx_outcome` describes.
pub open spec fn batch_item_post(
    tx: Transaction,
    st: Map<Key, U256>,
    warm: Seq<Key>,
    res: ExecutionResult,
    tstore: MemoryStore,
) -> bool {
    let (mend, err) = tx_outcome(tx, st, warm);
    res_view(res) == result_model_of(tx, mend, err) && tstore.mview() == mend.storage
}

/// Runs one transaction on a snapshot of the store with the given warm
/// keys; nothing it does is visible outside the returned task storage.
pub fn run_tx_isolated(tx: &Transaction, store: &MemoryStore, warm: &Vec<Key>) -> (r: (
    ExecutionResult,
    MemoryStore,
))
    requires
        warm@.no_duplicates(),
    ensures
        batch_item_post(*tx, store.mview(), warm@, r.0, r.1),
{
    let snap = store.snapshot();
    proof {
        crate::storage::lemma_memory_store_views(store);
        crate::storage::lemma_memory_store_views(&snap);
    }
    let mut ctx = ExecutionContext::new(snap);
    ctx.warm_keys = crate::types::clone_key_list(warm);
    let result = crate::evm::execute_transaction(tx, &mut ctx);
    proof {
        crate::storage::lemma_memory_store_views(&ctx.storage);
    }
    (result, ctx.storage)
}

/// Relies on rayon's par_iter, map and collect: the output holds one entry
/// per batch position, in batch order, each the value `run_tx_isolated`
/// returns for that position; the workers share nothing.
#[verifier::external_body]
fn par_run_batch(
    txs: &Vec<Transaction>,
    batch: &Vec<usize>,
    store: &MemoryStore,
    warm: &Vec<Key>,
) -> (r: Vec<(ExecutionResult, MemoryStore)>)
    requires
        warm@.no_duplicates(),
        forall|j: int| 0 <= j < batch@.len() ==> batch@[j] < txs@.len(),
    ensures
        r@.len() == batch@.len(),
        forall|j: int|
            0 <= j < batch@.len() ==> batch_item_post(
                txs@[batch@[j] as int],
                store.mview(),
                warm@,
                r@[j].0,
                r@[j].1,
            ),
{
    batch.par_iter().map(|&i| run_tx_isolated(&txs[i], store, warm)).collect()
}

/// What parallel execution of a block returns.
pub struct ParallelExecutionResult {
    pub storage: MemoryStore,
    pub results: Vec<ExecutionResult>,
    pub total_gas: u64,
    pub waves: Vec<Vec<u64>>,
}

/// The executor: a scheduler, an access-list builder, and the shared store.
pub struct ParallelExecutor<O: AccessOracle> {
    scheduler: MIScheduler,
    access_builder: AccessListBuilder<O>,
    storage: MemoryStore,
}

/// Every id in the queue is bound in the final results, to a result
/// carrying that id.
pub proof fn lemma_round_results(
    batch: Seq<Transaction>,
    st0: Map<Key, U256>,
    warm0: Seq<Key>,
    acc: RoundAcc,
)
    requires
        forall|id: u64|
            #[trigger] acc.results.dom().contains(id) ==> acc.results[id].tx_id == id,
    ensures
        ({
            let a = spec_round(batch, st0, warm0, acc);
            &&& forall|id: u64|
                a.results.dom().contains(id) ==> acc.results.dom().contains(id) || exists|i: int|
                    0 <= i < batch.len() && (#[trigger] batch[i]).id == id
            &&& forall|i: int|
                0 <= i < batch.len() ==> a.results.dom().contains((#[trigger] batch[i]).id)
                    || a.rejected.contains(batch[i])
            &&& forall|id: u64|
                acc.results.dom().contains(id) ==> a.results.dom().contains(id)
            &&& forall|id: u64|
                #[trigger] a.results.dom().contains(id) ==> a.results[id].tx_id == id
            &&& forall|t: Transaction| a.rejected.contains(t) ==> acc.rejected.contains(t)
                || batch.contains(t)
        }),
    decreases batch.len(),
{
    if batch.len() > 0 {
        lemma_round_results(batch.drop_last(), st0, warm0, acc);
        let prev = spec_round(batch.drop_last(), st0, warm0, acc);
        let a = spec_round(batch, st0, warm0, acc);
        assert forall|i: int|
            0 <= i < batch.len() implies a.results.dom().contains((#[trigger] batch[i]).id)
                || a.rejected.contains(batch[i]) by {
            if i < batch.len() - 1 {
                assert(batch.drop_last()[i] == batch[i]);
                if prev.rejected.contains(batch[i]) {
                    if a.rejected == prev.rejected {
                        assert(a.rejected.contains(batch[i]));
                    } else {
                        let j = choose|j: int|
                            0 <= j < prev.rejected.len() && prev.rejected[j] == batch[i];
                        assert(a.rejected[j] == batch[i]);
                    }
                }
            } else {
                assert(batch[i] == batch.last());
                if !(a.results == prev.results.insert(batch.last().id, a.results[batch.last().id])) {
                }
                if a.rejected == prev.rejected.push(batch.last()) {
                    assert(a.rejected[a.rejected.len() - 1] == batch[i]);
                }
            }
        }
        assert forall|t: Transaction| a.rejected.contains(t) implies acc.rejected.contains(t)
            || batch.contains(t) by {
            if a.rejected == prev.rejected.push(batch.last()) {
                let j = choose|j: int| 0 <= j < a.rejected.len() && a.rejected[j] == t;
                if j < prev.rejected.len() {
                    assert(prev.rejected[j] == t);
                    if batch.drop_last().contains(t) {
                        let i = choose|i: int|
                            0 <= i < batch.drop_last().len() && batch.drop_last()[i] == t;
                        assert(batch[i] == t);
                    }
                } else {
                    assert(t == batch.last());
                    assert(batch[batch.len() - 1] == t);
                }
            } else {
                if batch.drop_last().contains(t) {
                    let i = choose|i: int|
                        0 <= i < batch.drop_last().len() && batch.drop_last()[i] == t;
                    assert(batch[i] == t);
                }
            }
        }
        assert forall|id: u64|
            a.results.dom().contains(id) implies acc.results.dom().contains(id) || exists|i: int|
                0 <= i < batch.len() && (#[trigger] batch[i]).id == id by {
            if !acc.results.dom().contains(id) {
                if prev.results.dom().contains(id) {
                    let i = choose|i: int|
                        0 <= i < batch.drop_last().len() && (#[trigger] batch.drop_last()[i]).id
                            == id;
                    assert(batch[i].id == id);
                } else {
                    assert(batch[batch.len() - 1].id == id);
                }
            }
        }
    }
}

/// After every round has run, each queued id is bound to a result with
/// that id.
pub proof fn lemma_rounds_results(pending: Seq<Transaction>, cap: nat, st: ParState)
    requires
        cap >= 1,
        forall|id: u64|
            #[trigger] st.results.dom().contains(id) ==> st.results[id].tx_id == id,
    ensures
        ({
            let fin = spec_rounds(pending, cap, st);
            &&& forall|i: int|
                0 <= i < pending.len() ==> fin.results.dom().contains(
                    (#[trigger] pending[i]).id,
                )
            &&& forall|id: u64|
                st.results.dom().contains(id) ==> fin.results.dom().contains(id)
            &&& forall|id: u64|
                #[trigger] fin.results.dom().contains(id) ==> fin.results[id].tx_id == id
        }),
    decreases pending.len(),
{
    if pending.len() == 0 {
    } else {
        let n = min_len(pending.len(), cap) as int;
        let batch = pending.take(n);
        let acc0 = round_init(st);
        let acc = spec_round(batch, st.storage, st.warm, acc0);
        lemma_round_progress(batch, st.storage, st.warm, acc0);
        lemma_round_counts(batch, st.storage, st.warm, acc0);
        lemma_round_results(batch, st.storage, st.warm, acc0);
        let next_pending = acc.rejected + pending.skip(n);
        lemma_rounds_results(next_pending, cap, after_round(st, acc));
        let fin = spec_rounds(pending, cap, st);
        assert forall|i: int|
            0 <= i < pending.len() implies fin.results.dom().contains((#[trigger] pending[i]).id)
            by {
            if i < n {
                assert(batch[i] == pending[i]);
                if acc.rejected.contains(batch[i]) {
                    let j = choose|j: int|
                        0 <= j < acc.rejected.len() && acc.rejected[j] == batch[i];
                    assert(next_pending[j] == batch[i]);
                } else {
                    assert(acc.results.dom().contains(pending[i].id));
                }
            } else {
                assert(pending.skip(n)[i - n] == pending[i]);
                assert(next_pending[acc.rejected.len() + i - n] == pending[i]);
            }
        }
    }
}

impl<O: AccessOracle> ParallelExecutor<O> {
    /// The scheduler's wave cap.
    pub closed spec fn cap(&self) -> nat {
        self.scheduler.cap()
    }

    /// The map the shared store denotes.
    pub closed spec fn storage_view(&self) -> Map<Key, U256> {
        self.storage.mview()
    }

    pub fn new(
        scheduler: MIScheduler,
        access_builder: AccessListBuilder<O>,
        storage: MemoryStore,
    ) -> (r: ParallelExecutor<O>)
        ensures
            r.cap() == scheduler.cap(),
            r.storage_view() == storage.mview(),
    {
        ParallelExecutor { scheduler, access_builder, storage }
    }

    /// The access-list builder, with whatever it has recorded.
    pub fn access_builder(&self) -> (r: &AccessListBuilder<O>) {
        &self.access_builder
    }

    /// Runs the pipeline on a block: estimates each transaction, asks the
    /// scheduler for a proposal, then executes the pending queue in rounds
    /// of at most the wave cap, in ascending id order, detecting runtime
    /// conflicts against committed and deferred sets and re-queueing the
    /// deferred transactions, until all are committed.
    #[verifier::rlimit(100)]
    #[verifier::spinoff_prover]
    pub fn execute_parallel(&mut self, block: &Block) -> (r: ParallelExecutionResult)
        requires
            crate::types::block_wf(block.transactions@),
            old(self).cap() >= 1,
        ensures
            ({
                let fin = spec_rounds(
                    block.transactions@,
                    old(self).cap(),
                    par_init(old(self).storage_view()),
                );
                &&& r.storage.mview() == fin.storage
                &&& final(self).storage_view() == fin.storage
                &&& final(self).cap() == old(self).cap()
                &&& r.waves@.map_values(|w: Vec<u64>| w@) == fin.waves
                &&& r.total_gas == fin.total_gas
                &&& r.results@.len() == block.transactions@.len()
                &&& forall|i: int|
                    0 <= i < r.results@.len() ==> (#[trigger] r.results@[i]).tx_id
                        == block.transactions@[i].id && res_view(r.results@[i])
                        == fin.results[block.transactions@[i].id]
            }),
    {
        let ghost txs = block.transactions@;
        let ghost cap = self.scheduler.cap();
        let ghost init = par_init(self.storage.mview());
        let n = block.transactions.len();
        // estimate phase
        let mut e: usize = 0;
        while e < n
            invariant
                0 <= e <= n,
                n == block.transactions@.len(),
                self.scheduler == old(self).scheduler,
                self.storage == old(self).storage,
            decreases n - e,
        {
            let tx = &block.transactions[e];
            self.access_builder.estimate_before_execution(tx);
            e += 1;
        }
        // schedule phase; the proposal's flattened order is re-sorted into
        // id order by each round below, as the in-round detector sorts, so
        // the queue starts in block order
        let _proposed = self.scheduler.schedule(block, &self.access_builder);
        let mut pending: Vec<usize> = Vec::new();
        let mut t: usize = 0;
        while t < n
            invariant
                0 <= t <= n,
                n == txs.len(),
                txs == block.transactions@,
                pending@.len() == t,
                forall|j: int| 0 <= j < t ==> pending@[j] == j,
            decreases n - t,
        {
            pending.push(t);
            t += 1;
        }
        let mut warm: Vec<Key> = Vec::new();
        let mut results_map: IdMap<ExecutionResult> = IdMap::new();
        let mut waves_acc: Vec<Vec<u64>> = Vec::new();
        let mut total_gas: u64 = 0;
        proof {
            assert(idx_txs(txs, pending@) =~= txs);
            assert(results_map@.map_values(|e2: ExecutionResult| res_view(e2)) =~= Map::<
                u64,
                ResultModel,
            >::empty());
            assert(waves_acc@.map_values(|w: Vec<u64>| w@) =~= Seq::<Seq<u64>>::empty());
            assert(init == ParState {
                storage: self.storage.mview(),
                warm: warm@,
                results: results_map@.map_values(|e2: ExecutionResult| res_view(e2)),
                waves: waves_acc@.map_values(|w: Vec<u64>| w@),
                total_gas: total_gas as int,
            });
        }
        while pending.len() > 0
            invariant
                txs == block.transactions@,
                n == txs.len(),
                cap == self.scheduler.cap(),
                cap >= 1,
                self.scheduler == old(self).scheduler,
                warm@.no_duplicates(),
                forall|j: int| 0 <= j < pending@.len() ==> pending@[j] < n,
                spec_rounds(
                    idx_txs(txs, pending@),
                    cap,
                    ParState {
                        storage: self.storage.mview(),
                        warm: warm@,
                        results: results_map@.map_values(|e2: ExecutionResult| res_view(e2)),
                        waves: waves_acc@.map_values(|w: Vec<u64>| w@),
                        total_gas: total_gas as int,
                    },
                ) == spec_rounds(txs, cap, init),
            decreases pending@.len(),
        {
            let cap_now = self.scheduler.max_size();
            let batch_len: usize = if cap_now < pending.len() {
                cap_now
            } else {
                pending.len()
            };
            let mut batch: Vec<usize> = Vec::new();
            let mut b: usize = 0;
            while b < batch_len
                invariant
                    0 <= b <= batch_len <= pending@.len(),
                    batch@ == pending@.take(b as int),
                decreases batch_len - b,
            {
                batch.push(pending[b]);
                proof {
                    assert(pending@.take(b + 1) =~= pending@.take(b as int).push(
                        pending@[b as int],
                    ));
                }
                b += 1;
            }
            let mut rest: Vec<usize> = Vec::new();
            let mut b2: usize = batch_len;
            while b2 < pending.len()
                invariant
                    batch_len <= b2 <= pending@.len(),
                    rest@ == pending@.subrange(batch_len as int, b2 as int),
                decreases pending@.len() - b2,
            {
                rest.push(pending[b2]);
                proof {
                    assert(pending@.subrange(batch_len as int, b2 + 1) =~= pending@.subrange(
                        batch_len as int,
                        b2 as int,
                    ).push(pending@[b2 as int]));
                }
                b2 += 1;
            }
            let ghost pending_m_start = idx_txs(txs, pending@);
            proof {
                assert(rest@ == pending@.skip(batch_len as int));
                assert(idx_txs(txs, batch@) =~= pending_m_start.take(batch_len as int));
                assert(idx_txs(txs, rest@) =~= pending_m_start.skip(batch_len as int));
            }
            let ghost st_round = ParState {
                storage: self.storage.mview(),
                warm: warm@,
                results: results_map@.map_values(|e2: ExecutionResult| res_view(e2)),
                waves: waves_acc@.map_values(|w: Vec<u64>| w@),
                total_gas: total_gas as int,
            };
            let ghost batch_m = idx_txs(txs, batch@);
            let ghost st0 = self.storage.mview();
            let ghost warm0 = warm@;
            let ghost acc0 = round_init(st_round);
            let mut outs = par_run_batch(&block.transactions, &batch, &self.storage, &warm);
            let ghost outs0 = outs@;
            let mut comm = AccessSets::new();
            let mut defer = AccessSets::new();
            let mut wave: Vec<u64> = Vec::new();
            let mut rejected: Vec<usize> = Vec::new();
            let mut j: usize = 0;
            proof {
                assert(batch_m.take(0) =~= Seq::<Transaction>::empty());
                assert(idx_txs(txs, rejected@) =~= Seq::<Transaction>::empty());
                assert(outs0.skip(0) =~= outs0);
            }
            while j < batch.len()
                invariant
                    0 <= j <= batch@.len(),
                    batch@.len() == batch_m.len(),
                    batch_m == idx_txs(txs, batch@),
                    txs == block.transactions@,
                    n == txs.len(),
                    cap == self.scheduler.cap(),
                    self.scheduler == old(self).scheduler,
                    forall|j2: int| 0 <= j2 < batch@.len() ==> batch@[j2] < n,
                    forall|j2: int| 0 <= j2 < rejected@.len() ==> rejected@[j2] < n,
                    outs@ == outs0.skip(j as int),
                    outs0.len() == batch@.len(),
                    forall|j2: int|
                        0 <= j2 < batch@.len() ==> batch_item_post(
                            txs[batch@[j2] as int],
                            st0,
                            warm0,
                            outs0[j2].0,
                            outs0[j2].1,
                        ),
                    comm.wf(),
                    defer.wf(),
                    warm@.no_duplicates(),
                    ({
                        let acc_j = spec_round(batch_m.take(j as int), st0, warm0, acc0);
                        &&& self.storage.mview() == acc_j.storage
                        &&& warm@ == acc_j.warm
                        &&& results_map@.map_values(|e2: ExecutionResult| res_view(e2))
                            == acc_j.results
                        &&& wave@ == acc_j.wave
                        &&& idx_txs(txs, rejected@) == acc_j.rejected
                        &&& comm.reads@.to_set() == acc_j.comm_r
                        &&& comm.writes@.to_set() == acc_j.comm_w
                        &&& defer.reads@.to_set() == acc_j.def_r
                        &&& defer.writes@.to_set() == acc_j.def_w
                        &&& total_gas == acc_j.gas
                    }),
                decreases batch@.len() - j,
            {
                let ghost acc_j = spec_round(batch_m.take(j as int), st0, warm0, acc0);
                let (res, tstore) = outs.remove(0);
                proof {
                    assert(outs0.skip(j as int)[0] == outs0[j as int]);
                    assert(outs0.skip(j as int).remove(0) =~= outs0.skip(j + 1));
                    assert(batch_m.take(j + 1).drop_last() =~= batch_m.take(j as int));
                    assert(batch_m.take(j + 1).last() == batch_m[j as int]);
                    assert(batch_m[j as int] == txs[batch@[j as int] as int]);
                }
                let ghost tx = batch_m[j as int];
                let ghost mend_err = tx_outcome(tx, st0, warm0);
                let ghost rm = result_model_of(tx, mend_err.0, mend_err.1);
                proof {
                    assert(res_view(res) == rm);
                    assert(tstore.mview() == mend_err.0.storage);
                    assert(res.access_sets.reads@ == rm.reads);
                    assert(res.access_sets.writes@ == rm.writes);
                }
                let reject_now = res.access_sets.has_conflict_with(&comm)
                    || res.access_sets.has_conflict_with(&defer);
                if reject_now {
                    let ghost rejected_pre = rejected@;
                    let ghost defer_r_pre = defer.reads@;
                    let ghost defer_w_pre = defer.writes@;
                    rejected.push(batch[j]);
                    defer.merge(&res.access_sets);
                    proof {
                        crate::types::lemma_key_seq_union_props(defer_r_pre, res.access_sets.reads@);
                        crate::types::lemma_key_seq_union_props(defer_w_pre, res.access_sets.writes@);
                        assert(defer.reads@.to_set() =~= acc_j.def_r.union(rm.reads.to_set()));
                        assert(defer.writes@.to_set() =~= acc_j.def_w.union(rm.writes.to_set()));
                        assert(idx_txs(txs, rejected@) =~= acc_j.rejected.push(tx));
                    }
                } else {
                    self.access_builder.record_after_execution(&res);
                    if res.success {
                        proof {
                            assert(rm.success);
                            assert(mend_err.1 is None);
                        }
                        let ghost gsv = self.storage.sview();
                        let ghost gmv = self.storage.mview();
                        proof {
                            lemma_memory_store_views(&self.storage);
                            lemma_memory_store_views(&tstore);
                            crate::evm::lemma_run_writes_in_dom(
                                tx.metadata.program@,
                                tx_start(
                                    tx,
                                    EvmState {
                                        storage: st0,
                                        warm: warm0,
                                        cold: Seq::<Key>::empty(),
                                        reads: Seq::<Key>::empty(),
                                        writes: Seq::<Key>::empty(),
                                        gas: 0,
                                        stack: Seq::<nat>::empty(),
                                    },
                                ),
                                u64::MAX as int,
                            );
                            assert(rm.writes == mend_err.0.writes);
                            assert forall|k: Key| #[trigger] res.access_sets.writes@.contains(
                                k,
                            ) implies tstore.sview().dom().contains(k) by {
                                assert(mend_err.0.writes.contains(k));
                            }
                        }
                        crate::evm::commit_result_writes(&mut self.storage, &tstore, &res.access_sets.writes);
                        proof {
                            lemma_memory_store_views(&self.storage);
                            assert(self.storage.mview() == commit_writes(
                                gmv,
                                tstore.mview(),
                                rm.writes,
                            ));
                        }
                        total_gas = match total_gas.checked_add(res.gas_used) {
                            Some(tg) => tg,
                            None => u64::MAX,
                        };
                        let ghost warm_pre = warm@;
                        crate::types::key_list_merge(&mut warm, &res.warm_keys);
                        proof {
                            crate::types::lemma_key_seq_union_props(warm_pre, res.warm_keys@);
                            assert(warm@ == key_seq_union(acc_j.warm, rm.warm));
                        }
                    }
                    let ghost comm_r_pre = comm.reads@;
                    let ghost comm_w_pre = comm.writes@;
                    comm.merge(&res.access_sets);
                    proof {
                        crate::types::lemma_key_seq_union_props(comm_r_pre, res.access_sets.reads@);
                        crate::types::lemma_key_seq_union_props(comm_w_pre, res.access_sets.writes@);
                        assert(comm.reads@.to_set() =~= acc_j.comm_r.union(rm.reads.to_set()));
                        assert(comm.writes@.to_set() =~= acc_j.comm_w.union(rm.writes.to_set()));
                    }
                    wave.push(res.tx_id);
                    proof {
                        assert(res.tx_id == tx.id);
                        assert(wave@ =~= acc_j.wave.push(tx.id));
                    }
                    let ghost rmap_pre = results_map@;
                    results_map.insert(res.tx_id, res);
                    proof {
                        assert(results_map@.map_values(|e2: ExecutionResult| res_view(e2))
                            =~= rmap_pre.map_values(|e2: ExecutionResult| res_view(e2)).insert(
                            tx.id,
                            rm,
                        ));
                    }
                }
                j += 1;
            }
            proof {
                assert(batch_m.take(batch_m.len() as int) =~= batch_m);
            }
            let ghost acc_full = spec_round(batch_m, st0, warm0, acc0);
            if wave.len() > 0 {
                let ghost waves_pre = waves_acc@;
                waves_acc.push(wave);
                proof {
                    assert(waves_acc@.map_values(|w: Vec<u64>| w@) =~= waves_pre.map_values(
                        |w: Vec<u64>| w@,
                    ).push(acc_full.wave));
                }
            }
            let mut new_pending: Vec<usize> = Vec::new();
            let mut p1: usize = 0;
            while p1 < rejected.len()
                invariant
                    0 <= p1 <= rejected@.len(),
                    new_pending@ == rejected@.take(p1 as int),
                decreases rejected@.len() - p1,
            {
                new_pending.push(rejected[p1]);
                proof {
                    assert(rejected@.take(p1 + 1) =~= rejected@.take(p1 as int).push(
                        rejected@[p1 as int],
                    ));
                }
                p1 += 1;
            }
            let mut p2: usize = 0;
            while p2 < rest.len()
                invariant
                    0 <= p2 <= rest@.len(),
                    new_pending@ == rejected@ + rest@.take(p2 as int),
                decreases rest@.len() - p2,
            {
                new_pending.push(rest[p2]);
                proof {
                    assert(rest@.take(p2 + 1) =~= rest@.take(p2 as int).push(rest@[p2 as int]));
                    assert(rejected@ + rest@.take(p2 + 1) =~= (rejected@ + rest@.take(
                        p2 as int,
                    )).push(rest@[p2 as int]));
                }
                p2 += 1;
            }
            proof {
                assert(rejected@.take(rejected@.len() as int) =~= rejected@);
                assert(rest@.take(rest@.len() as int) =~= rest@);
            }
            pending = new_pending;
            proof {
                lemma_round_progress(batch_m, st0, warm0, acc0);
                assert(idx_txs(txs, pending@) =~= acc_full.rejected + idx_txs(txs, rest@));
                assert(idx_txs(txs, rejected@).len() == rejected@.len());
                assert(pending@.len() < batch@.len() + rest@.len());
                assert forall|j2: int| 0 <= j2 < pending@.len() implies pending@[j2] < n by {
                    if j2 < rejected@.len() {
                        assert(pending@[j2] == rejected@[j2]);
                    } else {
                        assert(pending@[j2] == rest@[j2 - rejected@.len()]);
                    }
                }
                let cur = ParState {
                    storage: self.storage.mview(),
                    warm: warm@,
                    results: results_map@.map_values(|e2: ExecutionResult| res_view(e2)),
                    waves: waves_acc@.map_values(|w: Vec<u64>| w@),
                    total_gas: total_gas as int,
                };
                assert(cur.storage == acc_full.storage);
                assert(cur.warm == acc_full.warm);
                assert(cur.results == acc_full.results);
                assert(cur.waves == after_round(st_round, acc_full).waves);
                assert(cur.total_gas == acc_full.gas);
                assert(cur == after_round(st_round, acc_full));
                let pm = pending_m_start;
                assert(spec_rounds(pm, cap, st_round) == spec_rounds(
                    idx_txs(txs, pending@),
                    cap,
                    cur,
                )) by {
                    assert(pm.len() > 0);
                    assert(min_len(pm.len(), cap) == batch@.len());
                    assert(pm.take(batch@.len() as int) =~= batch_m);
                    assert(pm.skip(batch@.len() as int) =~= idx_txs(txs, rest@));
                    assert(round_init(st_round) == acc0);
                    assert(idx_txs(txs, pending@) == spec_round(batch_m, st0, warm0, acc0).rejected
                        + pm.skip(batch@.len() as int));
                }
            }
        }
        proof {
            assert(idx_txs(txs, pending@) =~= Seq::<Transaction>::empty());
        }
        let ghost fin = spec_rounds(txs, cap, init);
        proof {
            lemma_rounds_results(txs, cap, init);
            assert(results_map@.map_values(|e2: ExecutionResult| res_view(e2)) == fin.results);
            assert(self.storage.mview() == fin.storage);
            assert(waves_acc@.map_values(|w: Vec<u64>| w@) == fin.waves);
            assert(total_gas == fin.total_gas);
        }
        // result assembly in block order
        let mut results: Vec<ExecutionResult> = Vec::new();
        let mut a: usize = 0;
        while a < n
            invariant
                0 <= a <= n,
                n == txs.len(),
                txs == block.transactions@,
                crate::types::block_wf(txs),
                fin == spec_rounds(txs, cap, init),
                forall|id: u64|
                    #[trigger] fin.results.dom().contains(id) ==> fin.results[id].tx_id == id,
                results@.len() == a,
                forall|i: int|
                    0 <= i < a ==> (#[trigger] results@[i]).tx_id == txs[i].id && res_view(
                        results@[i],
                    ) == fin.results[txs[i].id],
                forall|i: int| a <= i < n ==> results_map@.dom().contains(#[trigger] txs[i].id),
                forall|id: u64|
                    #[trigger] results_map@.dom().contains(id) ==> fin.results.dom().contains(id)
                        && res_view(results_map@[id]) == fin.results[id],
            decreases n - a,
        {
            let id = block.transactions[a].id;
            let ghost rmap_pre = results_map@;
            match results_map.take(id) {
                Some(res) => {
                    proof {
                        assert(res == rmap_pre[id]);
                        assert(res_view(res) == fin.results[id]);
                        assert(res.tx_id == id);
                        assert forall|i: int| a + 1 <= i < n implies results_map@.dom().contains(
                            #[trigger] txs[i].id,
                        ) by {
                            assert(txs[a as int].id < txs[i].id);
                        }
                    }
                    results.push(res);
                },
                None => {
                    proof {
                        assert(rmap_pre.dom().contains(txs[a as int].id));
                        assert(false);
                    }
                },
            }
            a += 1;
        }
        let out_storage = self.storage.clone();
        proof {
            lemma_memory_store_views(&out_storage);
            lemma_memory_store_views(&self.storage);
        }
        ParallelExecutionResult {
            storage: out_storage,
            results,
            total_gas,
            waves: waves_acc,
        }
    }
}

} // verus!
