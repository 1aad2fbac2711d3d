//! Block-level laws of the executors, stated over their models.
use vstd::prelude::*;
use crate::evm::serial_init;
use crate::evm::serial_tx_entry;
use crate::evm::spec_serial;
use crate::evm::spec_serial_step;
use crate::parallel::ParState;
use crate::parallel::par_init;
use crate::parallel::spec_round;
use crate::parallel::spec_rounds;
use crate::parallel::round_init;
use crate::parallel::after_round;
use crate::parallel::min_len;
use crate::parallel::tx_outcome;
use crate::types::Key;
use crate::types::Transaction;
use crate::types::U256;

verus! {

/// Determinism: parallel execution is a function of the block, the wave
/// cap, and the starting storage; two executions that satisfy the
/// executor's contract yield the same storage view, result models, waves
/// and gas total.
pub proof fn lemma_parallel_deterministic(
    txs: Seq<Transaction>,
    cap: nat,
    st: Map<Key, U256>,
    r1: ParState,
    r2: ParState,
)
    requires
        r1 == spec_rounds(txs, cap, par_init(st)),
        r2 == spec_rounds(txs, cap, par_init(st)),
    ensures
        r1 == r2,
{
}

/// Serial equivalence on one-transaction blocks: the parallel executor
/// commits the transaction exactly as serial execution does, so both end
/// in the same storage.
pub proof fn lemma_serial_equivalence_single(tx: Transaction, st: Map<Key, U256>, cap: nat)
    requires
        cap >= 1,
    ensures
        spec_rounds(seq![tx], cap, par_init(st)).storage == spec_serial(
            seq![tx],
            serial_init(st),
        ).storage,
{
    let pend = seq![tx];
    let pst = par_init(st);
    let acc0 = round_init(pst);
    let n = min_len(pend.len(), cap) as int;
    assert(n == 1);
    let batch = pend.take(1);
    assert(batch =~= pend);
    assert(batch.drop_last() =~= Seq::<Transaction>::empty());
    let prev = spec_round(batch.drop_last(), st, pst.warm, acc0);
    assert(prev == acc0);
    let (mend, err) = tx_outcome(tx, st, pst.warm);
    let rm = crate::evm::result_model_of(tx, mend, err);
    assert(!crate::types::sets_conflict(
        rm.reads.to_set(),
        rm.writes.to_set(),
        acc0.comm_r,
        acc0.comm_w,
    )) by {
        if crate::types::sets_intersect(rm.writes.to_set(), acc0.comm_w) {
            let k = choose|k: Key| rm.writes.to_set().contains(k) && acc0.comm_w.contains(k);
        }
        if crate::types::sets_intersect(rm.writes.to_set(), acc0.comm_r) {
            let k = choose|k: Key| rm.writes.to_set().contains(k) && acc0.comm_r.contains(k);
        }
        if crate::types::sets_intersect(rm.reads.to_set(), acc0.comm_w) {
            let k = choose|k: Key| rm.reads.to_set().contains(k) && acc0.comm_w.contains(k);
        }
    }
    assert(!crate::types::sets_conflict(
        rm.reads.to_set(),
        rm.writes.to_set(),
        acc0.def_r,
        acc0.def_w,
    )) by {
        if crate::types::sets_intersect(rm.writes.to_set(), acc0.def_w) {
            let k = choose|k: Key| rm.writes.to_set().contains(k) && acc0.def_w.contains(k);
        }
        if crate::types::sets_intersect(rm.writes.to_set(), acc0.def_r) {
            let k = choose|k: Key| rm.writes.to_set().contains(k) && acc0.def_r.contains(k);
        }
        if crate::types::sets_intersect(rm.reads.to_set(), acc0.def_w) {
            let k = choose|k: Key| rm.reads.to_set().contains(k) && acc0.def_w.contains(k);
        }
    }
    let acc = spec_round(batch, st, pst.warm, acc0);
    assert(acc.rejected.len() == 0);
    assert(acc.storage == if err is None {
        crate::evm::commit_writes(st, mend.storage, rm.writes)
    } else {
        st
    });
    let nxt = acc.rejected + pend.skip(1);
    assert(nxt =~= Seq::<Transaction>::empty());
    assert(spec_rounds(nxt, cap, after_round(pst, acc)) == after_round(pst, acc)) by {
        assert(nxt.len() == 0);
    }
    assert(spec_rounds(pend, cap, pst) == spec_rounds(nxt, cap, after_round(pst, acc)));
    // serial execution of the same single transaction
    let sst = serial_init(st);
    assert(pend.drop_last() =~= Seq::<Transaction>::empty());
    assert(spec_serial(pend.drop_last(), sst) == sst) by {
        assert(pend.drop_last().len() == 0);
    }
    assert(pend.last() == tx);
    assert(spec_serial(pend, sst) == spec_serial_step(sst, tx));
    assert(serial_tx_entry(sst) == crate::evm::EvmState {
        storage: st,
        warm: Seq::<Key>::empty(),
        cold: Seq::<Key>::empty(),
        reads: Seq::<Key>::empty(),
        writes: Seq::<Key>::empty(),
        gas: 0,
        stack: Seq::<nat>::empty(),
    });
}

/// The ids of a list of transactions, in order.
pub open spec fn tx_ids(s: Seq<Transaction>) -> Seq<u64> {
    s.map_values(|t: Transaction| t.id)
}

/// Conflict against a union of sets is conflict against one of them.
pub proof fn lemma_conflict_union(
    ar: Set<Key>,
    aw: Set<Key>,
    br1: Set<Key>,
    bw1: Set<Key>,
    br2: Set<Key>,
    bw2: Set<Key>,
)
    ensures
        crate::types::sets_conflict(ar, aw, br1.union(br2), bw1.union(bw2)) == (
        crate::types::sets_conflict(ar, aw, br1, bw1) || crate::types::sets_conflict(
            ar,
            aw,
            br2,
            bw2,
        )),
{
    let big = crate::types::sets_conflict(ar, aw, br1.union(br2), bw1.union(bw2));
    if big {
        if crate::types::sets_intersect(aw, bw1.union(bw2)) {
            let k = choose|k: Key| aw.contains(k) && bw1.union(bw2).contains(k);
            assert(bw1.contains(k) || bw2.contains(k));
        } else if crate::types::sets_intersect(aw, br1.union(br2)) {
            let k = choose|k: Key| aw.contains(k) && br1.union(br2).contains(k);
            assert(br1.contains(k) || br2.contains(k));
        } else {
            let k = choose|k: Key| ar.contains(k) && bw1.union(bw2).contains(k);
            assert(bw1.contains(k) || bw2.contains(k));
        }
    }
    if crate::types::sets_conflict(ar, aw, br1, bw1) {
        if crate::types::sets_intersect(aw, bw1) {
            let k = choose|k: Key| aw.contains(k) && bw1.contains(k);
            assert(bw1.union(bw2).contains(k));
        } else if crate::types::sets_intersect(aw, br1) {
            let k = choose|k: Key| aw.contains(k) && br1.contains(k);
            assert(br1.union(br2).contains(k));
        } else {
            let k = choose|k: Key| ar.contains(k) && bw1.contains(k);
            assert(bw1.union(bw2).contains(k));
        }
    }
    if crate::types::sets_conflict(ar, aw, br2, bw2) {
        if crate::types::sets_intersect(aw, bw2) {
            let k = choose|k: Key| aw.contains(k) && bw2.contains(k);
            assert(bw1.union(bw2).contains(k));
        } else if crate::types::sets_intersect(aw, br2) {
            let k = choose|k: Key| aw.contains(k) && br2.contains(k);
            assert(br1.union(br2).contains(k));
        } else {
            let k = choose|k: Key| ar.contains(k) && bw2.contains(k);
            assert(bw1.union(bw2).contains(k));
        }
    }
}

/// The conflict predicate on raw sets is symmetric.
pub proof fn lemma_sets_conflict_sym(ar: Set<Key>, aw: Set<Key>, br: Set<Key>, bw: Set<Key>)
    ensures
        crate::types::sets_conflict(ar, aw, br, bw) == crate::types::sets_conflict(br, bw, ar, aw),
{
    if crate::types::sets_conflict(ar, aw, br, bw) {
        if crate::types::sets_intersect(aw, bw) {
            let k = choose|k: Key| aw.contains(k) && bw.contains(k);
            assert(bw.contains(k) && aw.contains(k));
        } else if crate::types::sets_intersect(aw, br) {
            let k = choose|k: Key| aw.contains(k) && br.contains(k);
            assert(br.contains(k) && aw.contains(k));
        } else {
            let k = choose|k: Key| ar.contains(k) && bw.contains(k);
            assert(bw.contains(k) && ar.contains(k));
        }
    }
    if crate::types::sets_conflict(br, bw, ar, aw) {
        if crate::types::sets_intersect(bw, aw) {
            let k = choose|k: Key| bw.contains(k) && aw.contains(k);
            assert(aw.contains(k) && bw.contains(k));
        } else if crate::types::sets_intersect(bw, ar) {
            let k = choose|k: Key| bw.contains(k) && ar.contains(k);
            assert(ar.contains(k) && bw.contains(k));
        } else {
            let k = choose|k: Key| br.contains(k) && aw.contains(k);
            assert(aw.contains(k) && br.contains(k));
        }
    }
}

/// What intra-wave independence asks of a round accumulator: each
/// committed id carries a recorded result whose observed sets sit inside
/// the committed sets, and no two committed results conflict.
pub open spec fn wave_inv(acc: crate::parallel::RoundAcc) -> bool {
    &&& forall|p: int|
        0 <= p < acc.wave.len() ==> acc.results.dom().contains(#[trigger] acc.wave[p])
            && acc.results[acc.wave[p]].reads.to_set().subset_of(acc.comm_r)
            && acc.results[acc.wave[p]].writes.to_set().subset_of(acc.comm_w)
    &&& forall|p: int, q: int|
        #![trigger acc.wave[p], acc.wave[q]]
        0 <= p < acc.wave.len() && 0 <= q < acc.wave.len() && p != q
            ==> !crate::types::sets_conflict(
            acc.results[acc.wave[p]].reads.to_set(),
            acc.results[acc.wave[p]].writes.to_set(),
            acc.results[acc.wave[q]].reads.to_set(),
            acc.results[acc.wave[q]].writes.to_set(),
        )
}

/// Intra-wave independence at commit time: walking a batch of distinct,
/// not-yet-committed ids preserves `wave_inv`, so any two transactions
/// committed into one wave have non-conflicting observed access sets.
pub proof fn lemma_wave_independence(
    batch: Seq<Transaction>,
    st0: Map<Key, U256>,
    warm0: Seq<Key>,
    acc: crate::parallel::RoundAcc,
)
    requires
        wave_inv(acc),
        tx_ids(batch).no_duplicates(),
        forall|i: int| 0 <= i < batch.len() ==> !acc.wave.contains((#[trigger] batch[i]).id),
    ensures
        ({
            let a = spec_round(batch, st0, warm0, acc);
            &&& wave_inv(a)
            &&& forall|x: u64|
                a.wave.contains(x) ==> acc.wave.contains(x) || tx_ids(batch).contains(x)
            &&& acc.comm_r.subset_of(a.comm_r)
            &&& acc.comm_w.subset_of(a.comm_w)
        }),
    decreases batch.len(),
{
    if batch.len() == 0 {
    } else {
        assert(tx_ids(batch.drop_last()) =~= tx_ids(batch).drop_last());
        lemma_wave_independence(batch.drop_last(), st0, warm0, acc);
        let prev = spec_round(batch.drop_last(), st0, warm0, acc);
        let tx = batch.last();
        let (mend, err) = tx_outcome(tx, st0, warm0);
        let rm = crate::evm::result_model_of(tx, mend, err);
        let rset = rm.reads.to_set();
        let wset = rm.writes.to_set();
        let a = spec_round(batch, st0, warm0, acc);
        assert(tx_ids(batch)[batch.len() - 1] == tx.id);
        if crate::types::sets_conflict(rset, wset, prev.comm_r, prev.comm_w)
            || crate::types::sets_conflict(rset, wset, prev.def_r, prev.def_w) {
            // deferred: the wave and its bookkeeping are untouched
            assert(a.wave == prev.wave);
            assert(a.results == prev.results);
            assert(a.comm_r == prev.comm_r);
        } else {
            // committed: the new result conflicts with no committed one
            assert(!prev.wave.contains(tx.id)) by {
                if prev.wave.contains(tx.id) {
                    if acc.wave.contains(tx.id) {
                        assert(!acc.wave.contains(batch[batch.len() - 1].id));
                    } else {
                        assert(tx_ids(batch.drop_last()).contains(tx.id));
                        let i = choose|i: int|
                            0 <= i < tx_ids(batch.drop_last()).len() && tx_ids(
                                batch.drop_last(),
                            )[i] == tx.id;
                        assert(tx_ids(batch)[i] == tx.id);
                    }
                }
            }
            assert(a.wave == prev.wave.push(tx.id));
            assert(a.results == prev.results.insert(tx.id, rm));
            assert forall|p: int|
                0 <= p < a.wave.len() implies a.results.dom().contains(#[trigger] a.wave[p])
                    && a.results[a.wave[p]].reads.to_set().subset_of(a.comm_r)
                    && a.results[a.wave[p]].writes.to_set().subset_of(a.comm_w) by {
                if p < prev.wave.len() {
                    assert(a.wave[p] == prev.wave[p]);
                    assert(a.wave[p] != tx.id);
                    assert(a.results[a.wave[p]] == prev.results[prev.wave[p]]);
                } else {
                    assert(a.wave[p] == tx.id);
                    assert(a.results[tx.id] == rm);
                }
            }
            assert forall|p: int, q: int|
                #![trigger a.wave[p], a.wave[q]]
                0 <= p < a.wave.len() && 0 <= q < a.wave.len() && p != q implies
                !crate::types::sets_conflict(
                a.results[a.wave[p]].reads.to_set(),
                a.results[a.wave[p]].writes.to_set(),
                a.results[a.wave[q]].reads.to_set(),
                a.results[a.wave[q]].writes.to_set(),
            ) by {
                if p < prev.wave.len() && q < prev.wave.len() {
                    assert(a.wave[p] == prev.wave[p] && a.wave[q] == prev.wave[q]);
                    assert(a.wave[p] != tx.id && a.wave[q] != tx.id);
                } else if q == prev.wave.len() {
                    // the old member against the new one
                    assert(a.wave[q] == tx.id && a.wave[p] == prev.wave[p]);
                    assert(a.wave[p] != tx.id);
                    let old_rm = prev.results[prev.wave[p]];
                    assert(!crate::types::sets_conflict(rset, wset, prev.comm_r, prev.comm_w));
                    assert(!crate::types::sets_conflict(
                        rset,
                        wset,
                        old_rm.reads.to_set(),
                        old_rm.writes.to_set(),
                    )) by {
                        if crate::types::sets_conflict(
                            rset,
                            wset,
                            old_rm.reads.to_set(),
                            old_rm.writes.to_set(),
                        ) {
                            lemma_conflict_union(
                                rset,
                                wset,
                                old_rm.reads.to_set(),
                                old_rm.writes.to_set(),
                                prev.comm_r,
                                prev.comm_w,
                            );
                            assert(old_rm.reads.to_set().union(prev.comm_r) =~= prev.comm_r);
                            assert(old_rm.writes.to_set().union(prev.comm_w) =~= prev.comm_w);
                        }
                    }
                    lemma_sets_conflict_sym(
                        rset,
                        wset,
                        old_rm.reads.to_set(),
                        old_rm.writes.to_set(),
                    );
                } else {
                    assert(p == prev.wave.len());
                    assert(a.wave[p] == tx.id && a.wave[q] == prev.wave[q]);
                    assert(a.wave[q] != tx.id);
                    let old_rm = prev.results[prev.wave[q]];
                    assert(!crate::types::sets_conflict(
                        rset,
                        wset,
                        old_rm.reads.to_set(),
                        old_rm.writes.to_set(),
                    )) by {
                        if crate::types::sets_conflict(
                            rset,
                            wset,
                            old_rm.reads.to_set(),
                            old_rm.writes.to_set(),
                        ) {
                            lemma_conflict_union(
                                rset,
                                wset,
                                old_rm.reads.to_set(),
                                old_rm.writes.to_set(),
                                prev.comm_r,
                                prev.comm_w,
                            );
                            assert(old_rm.reads.to_set().union(prev.comm_r) =~= prev.comm_r);
                            assert(old_rm.writes.to_set().union(prev.comm_w) =~= prev.comm_w);
                        }
                    }
                }
            }
            assert forall|x: u64| a.wave.contains(x) implies acc.wave.contains(x) || tx_ids(
                batch,
            ).contains(x) by {
                let p = choose|p: int| 0 <= p < a.wave.len() && a.wave[p] == x;
                if p < prev.wave.len() {
                    assert(prev.wave[p] == x);
                    if tx_ids(batch.drop_last()).contains(x) {
                        let i = choose|i: int|
                            0 <= i < tx_ids(batch.drop_last()).len() && tx_ids(
                                batch.drop_last(),
                            )[i] == x;
                        assert(tx_ids(batch)[i] == x);
                    }
                } else {
                    assert(x == tx.id);
                    assert(tx_ids(batch)[batch.len() - 1] == x);
                }
            }
        }
        assert forall|x: u64| a.wave.contains(x) implies acc.wave.contains(x) || tx_ids(
            batch,
        ).contains(x) by {
            if a.wave == prev.wave {
                let p = choose|p: int| 0 <= p < prev.wave.len() && prev.wave[p] == x;
                if tx_ids(batch.drop_last()).contains(x) {
                    let i = choose|i: int|
                        0 <= i < tx_ids(batch.drop_last()).len() && tx_ids(batch.drop_last())[i]
                            == x;
                    assert(tx_ids(batch)[i] == x);
                }
            }
        }
    }
}

/// One round splits its batch between the committed wave and the deferred
/// list, keeping each in the batch's ascending order.
pub proof fn lemma_round_partition(
    batch: Seq<Transaction>,
    st0: Map<Key, U256>,
    warm0: Seq<Key>,
    acc: crate::parallel::RoundAcc,
)
    requires
        crate::mis::strictly_ascending(tx_ids(batch)),
        acc.wave.len() == 0,
        acc.rejected.len() == 0,
    ensures
        ({
            let a = spec_round(batch, st0, warm0, acc);
            &&& crate::mis::strictly_ascending(a.wave)
            &&& crate::mis::strictly_ascending(tx_ids(a.rejected))
            &&& forall|x: u64|
                a.wave.contains(x) || tx_ids(a.rejected).contains(x) <==> tx_ids(batch).contains(x)
            &&& forall|x: u64| !(a.wave.contains(x) && tx_ids(a.rejected).contains(x))
            &&& forall|i: int, j: int|
                0 <= i < a.wave.len() && 0 <= j < a.rejected.len() ==> a.wave[i] != tx_ids(
                    a.rejected,
                )[j]
        }),
    decreases batch.len(),
{
    lemma_round_partition_gen(batch, st0, warm0, acc);
    let a = spec_round(batch, st0, warm0, acc);
    assert forall|i: int, j: int|
        0 <= i < a.wave.len() && 0 <= j < a.rejected.len() implies a.wave[i] != tx_ids(
        a.rejected,
    )[j] by {
        if a.wave[i] == tx_ids(a.rejected)[j] {
            let x = a.wave[i];
            assert(a.wave.contains(x));
            assert(tx_ids(a.rejected).contains(x));
        }
    }
}

/// The inductive core of the round partition: both output lists extend
/// the batch prefix order.
proof fn lemma_round_partition_gen(
    batch: Seq<Transaction>,
    st0: Map<Key, U256>,
    warm0: Seq<Key>,
    acc: crate::parallel::RoundAcc,
)
    requires
        crate::mis::strictly_ascending(tx_ids(batch)),
        crate::mis::strictly_ascending(acc.wave),
        crate::mis::strictly_ascending(tx_ids(acc.rejected)),
        forall|x: u64, i: int|
            #![trigger acc.wave.contains(x), batch[i]]
            #![trigger tx_ids(acc.rejected).contains(x), batch[i]]
            0 <= i < batch.len() && (acc.wave.contains(x) || tx_ids(acc.rejected).contains(x))
                ==> x < batch[i].id,
        forall|x: u64| !(acc.wave.contains(x) && tx_ids(acc.rejected).contains(x)),
    ensures
        ({
            let a = spec_round(batch, st0, warm0, acc);
            &&& crate::mis::strictly_ascending(a.wave)
            &&& crate::mis::strictly_ascending(tx_ids(a.rejected))
            &&& forall|x: u64|
                a.wave.contains(x) || tx_ids(a.rejected).contains(x) <==> (acc.wave.contains(x)
                    || tx_ids(acc.rejected).contains(x) || tx_ids(batch).contains(x))
            &&& forall|x: u64| !(a.wave.contains(x) && tx_ids(a.rejected).contains(x))
        }),
    decreases batch.len(),
{
    if batch.len() == 0 {
    } else {
        assert(tx_ids(batch.drop_last()) =~= tx_ids(batch).drop_last());
        assert forall|x: u64, i: int|
            #![trigger acc.wave.contains(x), batch.drop_last()[i]]
            #![trigger tx_ids(acc.rejected).contains(x), batch.drop_last()[i]]
            0 <= i < batch.drop_last().len() && (acc.wave.contains(x) || tx_ids(
                acc.rejected,
            ).contains(x)) implies x < batch.drop_last()[i].id by {
            assert(batch.drop_last()[i] == batch[i]);
        }
        lemma_round_partition_gen(batch.drop_last(), st0, warm0, acc);
        let prev = spec_round(batch.drop_last(), st0, warm0, acc);
        let tx = batch.last();
        let a = spec_round(batch, st0, warm0, acc);
        assert(tx_ids(batch)[batch.len() - 1] == tx.id);
        // everything already placed carries a smaller id than the last
        assert forall|x: u64| #[trigger] prev.wave.contains(x) implies x < tx.id by {
            if acc.wave.contains(x) || tx_ids(acc.rejected).contains(x) {
                assert(batch[batch.len() - 1] == tx);
            } else {
                assert(tx_ids(batch.drop_last()).contains(x));
                let i = choose|i: int|
                    0 <= i < tx_ids(batch.drop_last()).len() && tx_ids(batch.drop_last())[i] == x;
                assert(tx_ids(batch)[i] == x);
                assert(tx_ids(batch)[i] < tx_ids(batch)[batch.len() - 1]);
            }
        }
        assert forall|x: u64| #[trigger] tx_ids(prev.rejected).contains(x) implies x < tx.id by {
            if acc.wave.contains(x) || tx_ids(acc.rejected).contains(x) {
                assert(batch[batch.len() - 1] == tx);
            } else {
                assert(tx_ids(batch.drop_last()).contains(x));
                let i = choose|i: int|
                    0 <= i < tx_ids(batch.drop_last()).len() && tx_ids(batch.drop_last())[i] == x;
                assert(tx_ids(batch)[i] == x);
                assert(tx_ids(batch)[i] < tx_ids(batch)[batch.len() - 1]);
            }
        }
        let (mend, err) = tx_outcome(tx, st0, warm0);
        let rm = crate::evm::result_model_of(tx, mend, err);
        if crate::types::sets_conflict(
            rm.reads.to_set(),
            rm.writes.to_set(),
            prev.comm_r,
            prev.comm_w,
        ) || crate::types::sets_conflict(
            rm.reads.to_set(),
            rm.writes.to_set(),
            prev.def_r,
            prev.def_w,
        ) {
            assert(a.rejected == prev.rejected.push(tx));
            assert(tx_ids(a.rejected) =~= tx_ids(prev.rejected).push(tx.id));
            assert(crate::mis::strictly_ascending(tx_ids(a.rejected))) by {
                assert forall|i: int, j: int|
                    0 <= i < j < tx_ids(a.rejected).len() implies tx_ids(a.rejected)[i] < tx_ids(
                    a.rejected,
                )[j] by {
                    if j == tx_ids(a.rejected).len() - 1 {
                        assert(0 <= i < tx_ids(prev.rejected).len());
                        assert(tx_ids(a.rejected)[i] == tx_ids(prev.rejected)[i]);
                        assert(tx_ids(prev.rejected).contains(tx_ids(prev.rejected)[i]));
                        assert(tx_ids(prev.rejected)[i] < tx.id);
                        assert(tx_ids(a.rejected)[j] == tx.id);
                    } else {
                        assert(tx_ids(a.rejected)[i] == tx_ids(prev.rejected)[i]);
                        assert(tx_ids(a.rejected)[j] == tx_ids(prev.rejected)[j]);
                    }
                }
            }
            assert forall|x: u64|
                a.wave.contains(x) || tx_ids(a.rejected).contains(x) implies (acc.wave.contains(x)
                    || tx_ids(acc.rejected).contains(x) || tx_ids(batch).contains(x)) by {
                if tx_ids(a.rejected).contains(x) {
                    let i = choose|i: int|
                        0 <= i < tx_ids(a.rejected).len() && tx_ids(a.rejected)[i] == x;
                    if i < tx_ids(prev.rejected).len() {
                        assert(tx_ids(prev.rejected)[i] == x);
                        if tx_ids(batch.drop_last()).contains(x) {
                            let i2 = choose|i2: int|
                                0 <= i2 < tx_ids(batch.drop_last()).len() && tx_ids(
                                    batch.drop_last(),
                                )[i2] == x;
                            assert(tx_ids(batch)[i2] == x);
                        }
                    } else {
                        assert(x == tx.id);
                    }
                } else {
                    if tx_ids(batch.drop_last()).contains(x) {
                        let i2 = choose|i2: int|
                            0 <= i2 < tx_ids(batch.drop_last()).len() && tx_ids(
                                batch.drop_last(),
                            )[i2] == x;
                        assert(tx_ids(batch)[i2] == x);
                    }
                }
            }
            assert forall|x: u64|
                (acc.wave.contains(x) || tx_ids(acc.rejected).contains(x) || tx_ids(
                    batch,
                ).contains(x)) implies a.wave.contains(x) || tx_ids(a.rejected).contains(x) by {
                if tx_ids(batch).contains(x) {
                    let i = choose|i: int| 0 <= i < tx_ids(batch).len() && tx_ids(batch)[i] == x;
                    if i < batch.len() - 1 {
                        assert(tx_ids(batch.drop_last())[i] == x);
                    } else {
                        assert(x == tx.id);
                        assert(tx_ids(a.rejected)[tx_ids(a.rejected).len() - 1] == x);
                    }
                }
                if tx_ids(prev.rejected).contains(x) {
                    let i = choose|i: int|
                        0 <= i < tx_ids(prev.rejected).len() && tx_ids(prev.rejected)[i] == x;
                    assert(tx_ids(a.rejected)[i] == x);
                }
            }
            assert forall|x: u64| !(a.wave.contains(x) && tx_ids(a.rejected).contains(x)) by {
                if a.wave.contains(x) && tx_ids(a.rejected).contains(x) {
                    let i = choose|i: int|
                        0 <= i < tx_ids(a.rejected).len() && tx_ids(a.rejected)[i] == x;
                    if i < tx_ids(prev.rejected).len() {
                        assert(tx_ids(prev.rejected)[i] == x);
                    } else {
                        assert(x == tx.id);
                        assert(prev.wave.contains(x));
                    }
                }
            }
        } else {
            assert(a.wave == prev.wave.push(tx.id));
            assert(crate::mis::strictly_ascending(a.wave)) by {
                assert forall|i: int, j: int|
                    0 <= i < j < a.wave.len() implies a.wave[i] < a.wave[j] by {
                    if j == a.wave.len() - 1 {
                        assert(prev.wave.contains(prev.wave[i]));
                    }
                }
            }
            assert forall|x: u64|
                a.wave.contains(x) || tx_ids(a.rejected).contains(x) implies (acc.wave.contains(x)
                    || tx_ids(acc.rejected).contains(x) || tx_ids(batch).contains(x)) by {
                if a.wave.contains(x) {
                    let i = choose|i: int| 0 <= i < a.wave.len() && a.wave[i] == x;
                    if i < prev.wave.len() {
                        assert(prev.wave[i] == x);
                        if tx_ids(batch.drop_last()).contains(x) {
                            let i2 = choose|i2: int|
                                0 <= i2 < tx_ids(batch.drop_last()).len() && tx_ids(
                                    batch.drop_last(),
                                )[i2] == x;
                            assert(tx_ids(batch)[i2] == x);
                        }
                    } else {
                        assert(x == tx.id);
                    }
                } else {
                    if tx_ids(batch.drop_last()).contains(x) {
                        let i2 = choose|i2: int|
                            0 <= i2 < tx_ids(batch.drop_last()).len() && tx_ids(
                                batch.drop_last(),
                            )[i2] == x;
                        assert(tx_ids(batch)[i2] == x);
                    }
                }
            }
            assert forall|x: u64|
                (acc.wave.contains(x) || tx_ids(acc.rejected).contains(x) || tx_ids(
                    batch,
                ).contains(x)) implies a.wave.contains(x) || tx_ids(a.rejected).contains(x) by {
                if tx_ids(batch).contains(x) {
                    let i = choose|i: int| 0 <= i < tx_ids(batch).len() && tx_ids(batch)[i] == x;
                    if i < batch.len() - 1 {
                        assert(tx_ids(batch.drop_last())[i] == x);
                    } else {
                        assert(x == tx.id);
                        assert(a.wave[a.wave.len() - 1] == x);
                    }
                }
                if prev.wave.contains(x) {
                    let i = choose|i: int| 0 <= i < prev.wave.len() && prev.wave[i] == x;
                    assert(a.wave[i] == x);
                }
            }
            assert forall|x: u64| !(a.wave.contains(x) && tx_ids(a.rejected).contains(x)) by {
                if a.wave.contains(x) && tx_ids(a.rejected).contains(x) {
                    assert(a.rejected == prev.rejected);
                    assert(tx_ids(prev.rejected).contains(x));
                    let i = choose|i: int| 0 <= i < a.wave.len() && a.wave[i] == x;
                    if i < prev.wave.len() {
                        assert(prev.wave[i] == x);
                        assert(prev.wave.contains(x));
                    } else {
                        assert(x == tx.id);
                        assert(x < tx.id);
                    }
                }
            }
        }
    }
}

/// Wave partition: across all rounds, the committed waves hold every
/// pending transaction id exactly once, each wave in ascending id order.
pub proof fn lemma_wave_partition(pending: Seq<Transaction>, cap: nat, st: ParState)
    requires
        cap >= 1,
        crate::mis::strictly_ascending(tx_ids(pending)),
        crate::mis::wave_concat(st.waves).no_duplicates(),
        forall|x: u64|
            #[trigger] crate::mis::wave_concat(st.waves).contains(x) ==> !tx_ids(
                pending,
            ).contains(x),
        forall|wi: int|
            0 <= wi < st.waves.len() ==> crate::mis::strictly_ascending(#[trigger] st.waves[wi]),
    ensures
        ({
            let fin = spec_rounds(pending, cap, st);
            &&& crate::mis::wave_concat(fin.waves).no_duplicates()
            &&& forall|x: u64|
                crate::mis::wave_concat(fin.waves).contains(x) <==> (crate::mis::wave_concat(
                    st.waves,
                ).contains(x) || tx_ids(pending).contains(x))
            &&& forall|wi: int|
                0 <= wi < fin.waves.len() ==> crate::mis::strictly_ascending(
                    #[trigger] fin.waves[wi],
                )
        }),
    decreases pending.len(),
{
    if pending.len() == 0 {
    } else {
        let n = min_len(pending.len(), cap) as int;
        let batch = pending.take(n);
        let acc0 = round_init(st);
        assert(tx_ids(batch) =~= tx_ids(pending).take(n));
        lemma_round_partition(batch, st.storage, st.warm, acc0);
        crate::parallel::lemma_round_progress(batch, st.storage, st.warm, acc0);
        let acc = spec_round(batch, st.storage, st.warm, acc0);
        let st1 = after_round(st, acc);
        let pend1 = acc.rejected + pending.skip(n);
        assert(tx_ids(pend1) =~= tx_ids(acc.rejected) + tx_ids(pending.skip(n)));
        assert(tx_ids(pending.skip(n)) =~= tx_ids(pending).skip(n));
        // every deferred id names a batch position
        assert forall|x: u64| #[trigger] tx_ids(acc.rejected).contains(x) implies tx_ids(
            batch,
        ).contains(x) by {
            assert(!(acc.wave.contains(x) && tx_ids(acc.rejected).contains(x)));
        }
        assert forall|x: u64| #[trigger] acc.wave.contains(x) implies tx_ids(batch).contains(x)
            by {}
        // the re-queued pool is still ascending
        assert(crate::mis::strictly_ascending(tx_ids(pend1))) by {
            assert forall|i: int, j: int|
                0 <= i < j < tx_ids(pend1).len() implies tx_ids(pend1)[i] < tx_ids(pend1)[j] by {
                let rl = tx_ids(acc.rejected).len();
                if j < rl {
                } else if i >= rl {
                    assert(tx_ids(pend1)[i] == tx_ids(pending)[n + i - rl]);
                    assert(tx_ids(pend1)[j] == tx_ids(pending)[n + j - rl]);
                } else {
                    let x = tx_ids(pend1)[i];
                    assert(tx_ids(acc.rejected)[i] == x);
                    assert(tx_ids(acc.rejected).contains(x));
                    assert(tx_ids(batch).contains(x));
                    let k = choose|k: int| 0 <= k < tx_ids(batch).len() && tx_ids(batch)[k] == x;
                    assert(tx_ids(pending)[k] == x);
                    assert(tx_ids(pend1)[j] == tx_ids(pending)[n + j - rl]);
                    assert(tx_ids(pending)[k] < tx_ids(pending)[n + j - rl]);
                }
            }
        }
        // the recorded wave extends the concatenation
        let wc0 = crate::mis::wave_concat(st.waves);
        let wc1 = crate::mis::wave_concat(st1.waves);
        assert(acc.wave.len() >= 1);
        assert(st1.waves == st.waves.push(acc.wave));
        assert(st1.waves.drop_last() =~= st.waves);
        assert(wc1 == wc0 + acc.wave);
        assert forall|x: u64| wc1.contains(x) implies wc0.contains(x) || acc.wave.contains(x) by {
            let p = choose|p: int| 0 <= p < wc1.len() && wc1[p] == x;
            if p < wc0.len() {
                assert(wc0[p] == x);
            } else {
                assert(acc.wave[p - wc0.len()] == x);
            }
        }
        assert forall|x: u64| wc0.contains(x) implies wc1.contains(x) by {
            let p = choose|p: int| 0 <= p < wc0.len() && wc0[p] == x;
            assert(wc1[p] == x);
        }
        assert forall|x: u64| acc.wave.contains(x) implies wc1.contains(x) by {
            let p = choose|p: int| 0 <= p < acc.wave.len() && acc.wave[p] == x;
            assert(wc1[wc0.len() + p] == x);
        }
        assert(wc1.no_duplicates()) by {
            assert forall|a: int, b: int| 0 <= a < b < wc1.len() implies wc1[a] != wc1[b] by {
                if b < wc0.len() {
                } else if a >= wc0.len() {
                    assert(wc1[a] == acc.wave[a - wc0.len()]);
                    assert(wc1[b] == acc.wave[b - wc0.len()]);
                    assert(crate::mis::strictly_ascending(acc.wave));
                } else {
                    assert(wc1[a] == wc0[a]);
                    assert(wc1[b] == acc.wave[b - wc0.len()]);
                    assert(wc0.contains(wc1[a]));
                    assert(acc.wave.contains(wc1[b]));
                    assert(tx_ids(batch).contains(wc1[b]));
                    let k = choose|k: int|
                        0 <= k < tx_ids(batch).len() && tx_ids(batch)[k] == wc1[b];
                    assert(tx_ids(pending)[k] == wc1[b]);
                    assert(tx_ids(pending).contains(wc1[b]));
                }
            }
        }
        // the new pool misses everything already committed
        assert forall|x: u64| #[trigger] wc1.contains(x) implies !tx_ids(pend1).contains(x) by {
            if tx_ids(pend1).contains(x) {
                let p = choose|p: int| 0 <= p < tx_ids(pend1).len() && tx_ids(pend1)[p] == x;
                let rl = tx_ids(acc.rejected).len();
                if p < rl {
                    assert(tx_ids(acc.rejected)[p] == x);
                    assert(tx_ids(acc.rejected).contains(x));
                    if wc0.contains(x) {
                        assert(tx_ids(batch).contains(x));
                        let k = choose|k: int|
                            0 <= k < tx_ids(batch).len() && tx_ids(batch)[k] == x;
                        assert(tx_ids(pending)[k] == x);
                        assert(tx_ids(pending).contains(x));
                    } else {
                        assert(acc.wave.contains(x));
                        assert(!(acc.wave.contains(x) && tx_ids(acc.rejected).contains(x)));
                    }
                } else {
                    assert(tx_ids(pend1)[p] == tx_ids(pending)[n + p - rl]);
                    if wc0.contains(x) {
                        assert(tx_ids(pending).contains(x));
                    } else {
                        assert(acc.wave.contains(x));
                        assert(tx_ids(batch).contains(x));
                        let k = choose|k: int|
                            0 <= k < tx_ids(batch).len() && tx_ids(batch)[k] == x;
                        assert(tx_ids(pending)[k] == x);
                        assert(tx_ids(pending)[k] < tx_ids(pending)[n + p - rl]);
                        assert(crate::mis::strictly_ascending(tx_ids(pending)));
                        assert(tx_ids(pending)[n + p - rl] == x);
                    }
                }
            }
        }
        assert forall|wi: int|
            0 <= wi < st1.waves.len() implies crate::mis::strictly_ascending(
            #[trigger] st1.waves[wi],
        ) by {
            if wi < st.waves.len() {
                assert(st1.waves[wi] == st.waves[wi]);
            } else {
                assert(st1.waves[wi] == acc.wave);
            }
        }
        lemma_wave_partition(pend1, cap, st1);
        let fin = spec_rounds(pending, cap, st);
        assert(fin == spec_rounds(pend1, cap, st1));
        // combine: old waves, this wave, and the re-queued pool cover the
        // pending ids exactly
        assert forall|x: u64|
            crate::mis::wave_concat(fin.waves).contains(x) implies (wc0.contains(x) || tx_ids(
                pending,
            ).contains(x)) by {
            if wc1.contains(x) {
                if acc.wave.contains(x) {
                    assert(tx_ids(batch).contains(x));
                    let k = choose|k: int| 0 <= k < tx_ids(batch).len() && tx_ids(batch)[k] == x;
                    assert(tx_ids(pending)[k] == x);
                }
            } else {
                assert(tx_ids(pend1).contains(x));
                let p = choose|p: int| 0 <= p < tx_ids(pend1).len() && tx_ids(pend1)[p] == x;
                let rl = tx_ids(acc.rejected).len();
                if p < rl {
                    assert(tx_ids(acc.rejected)[p] == x);
                    assert(tx_ids(acc.rejected).contains(x));
                    assert(tx_ids(batch).contains(x));
                    let k = choose|k: int| 0 <= k < tx_ids(batch).len() && tx_ids(batch)[k] == x;
                    assert(tx_ids(pending)[k] == x);
                } else {
                    assert(tx_ids(pend1)[p] == tx_ids(pending)[n + p - rl]);
                }
            }
        }
        assert forall|x: u64|
            (wc0.contains(x) || tx_ids(pending).contains(x)) implies crate::mis::wave_concat(
            fin.waves,
        ).contains(x) by {
            if wc0.contains(x) {
                assert(wc1.contains(x));
            } else {
                let k = choose|k: int| 0 <= k < tx_ids(pending).len() && tx_ids(pending)[k] == x;
                if k < n {
                    assert(tx_ids(batch)[k] == x);
                    assert(tx_ids(batch).contains(x));
                    if acc.wave.contains(x) {
                        assert(wc1.contains(x));
                    } else {
                        assert(tx_ids(acc.rejected).contains(x));
                        let p = choose|p: int|
                            0 <= p < tx_ids(acc.rejected).len() && tx_ids(acc.rejected)[p] == x;
                        assert(tx_ids(pend1)[p] == x);
                        assert(tx_ids(pend1).contains(x));
                    }
                } else {
                    assert(tx_ids(pending).skip(n)[k - n] == x);
                    assert(tx_ids(pend1)[tx_ids(acc.rejected).len() + k - n] == x);
                    assert(tx_ids(pend1).contains(x));
                }
            }
        }
    }
}

/// The result model one transaction yields on a given storage and warmth.
pub open spec fn outcome_model(
    tx: Transaction,
    st0: Map<Key, U256>,
    warm0: Seq<Key>,
) -> crate::evm::ResultModel {
    let (mend, err) = tx_outcome(tx, st0, warm0);
    crate::evm::result_model_of(tx, mend, err)
}

/// The union of the observed read sets of a batch.
pub open spec fn models_r_union(batch: Seq<Transaction>, st0: Map<Key, U256>, warm0: Seq<Key>)
    -> Set<Key>
    decreases batch.len(),
{
    if batch.len() == 0 {
        Set::<Key>::empty()
    } else {
        models_r_union(batch.drop_last(), st0, warm0).union(
            outcome_model(batch.last(), st0, warm0).reads.to_set(),
        )
    }
}

/// The union of the observed write sets of a batch.
pub open spec fn models_w_union(batch: Seq<Transaction>, st0: Map<Key, U256>, warm0: Seq<Key>)
    -> Set<Key>
    decreases batch.len(),
{
    if batch.len() == 0 {
        Set::<Key>::empty()
    } else {
        models_w_union(batch.drop_last(), st0, warm0).union(
            outcome_model(batch.last(), st0, warm0).writes.to_set(),
        )
    }
}

/// A pair of sets that conflicts with a batch's pooled sets conflicts with
/// one member's sets.
proof fn lemma_conflict_vs_union_fold(
    ar: Set<Key>,
    aw: Set<Key>,
    batch: Seq<Transaction>,
    st0: Map<Key, U256>,
    warm0: Seq<Key>,
)
    requires
        crate::types::sets_conflict(
            ar,
            aw,
            models_r_union(batch, st0, warm0),
            models_w_union(batch, st0, warm0),
        ),
    ensures
        exists|i: int|
            0 <= i < batch.len() && crate::types::sets_conflict(
                ar,
                aw,
                outcome_model(#[trigger] batch[i], st0, warm0).reads.to_set(),
                outcome_model(batch[i], st0, warm0).writes.to_set(),
            ),
    decreases batch.len(),
{
    if batch.len() == 0 {
        assert(!crate::types::sets_conflict(ar, aw, Set::<Key>::empty(), Set::<Key>::empty())) by {
            if crate::types::sets_intersect(aw, Set::<Key>::empty()) {
                let k = choose|k: Key| aw.contains(k) && Set::<Key>::empty().contains(k);
            }
            if crate::types::sets_intersect(ar, Set::<Key>::empty()) {
                let k = choose|k: Key| ar.contains(k) && Set::<Key>::empty().contains(k);
            }
        }
    } else {
        lemma_conflict_union(
            ar,
            aw,
            models_r_union(batch.drop_last(), st0, warm0),
            models_w_union(batch.drop_last(), st0, warm0),
            outcome_model(batch.last(), st0, warm0).reads.to_set(),
            outcome_model(batch.last(), st0, warm0).writes.to_set(),
        );
        if crate::types::sets_conflict(
            ar,
            aw,
            outcome_model(batch.last(), st0, warm0).reads.to_set(),
            outcome_model(batch.last(), st0, warm0).writes.to_set(),
        ) {
            assert(batch[batch.len() - 1] == batch.last());
        } else {
            lemma_conflict_vs_union_fold(ar, aw, batch.drop_last(), st0, warm0);
            let i = choose|i: int|
                0 <= i < batch.drop_last().len() && crate::types::sets_conflict(
                    ar,
                    aw,
                    outcome_model(#[trigger] batch.drop_last()[i], st0, warm0).reads.to_set(),
                    outcome_model(batch.drop_last()[i], st0, warm0).writes.to_set(),
                );
            assert(batch[i] == batch.drop_last()[i]);
        }
    }
}

/// A batch whose members' observed sets are pairwise non-conflicting is
/// committed whole: nothing is deferred, and the wave lists the batch.
pub proof fn lemma_round_accepts_all(
    batch: Seq<Transaction>,
    st0: Map<Key, U256>,
    warm0: Seq<Key>,
    acc: crate::parallel::RoundAcc,
)
    requires
        forall|i: int, j: int|
            #![trigger batch[i], batch[j]]
            0 <= i < batch.len() && 0 <= j < batch.len() && i != j
                ==> !crate::types::sets_conflict(
                outcome_model(batch[i], st0, warm0).reads.to_set(),
                outcome_model(batch[i], st0, warm0).writes.to_set(),
                outcome_model(batch[j], st0, warm0).reads.to_set(),
                outcome_model(batch[j], st0, warm0).writes.to_set(),
            ),
        forall|i: int|
            0 <= i < batch.len() ==> !crate::types::sets_conflict(
                outcome_model(#[trigger] batch[i], st0, warm0).reads.to_set(),
                outcome_model(batch[i], st0, warm0).writes.to_set(),
                acc.comm_r,
                acc.comm_w,
            ),
        acc.def_r == Set::<Key>::empty(),
        acc.def_w == Set::<Key>::empty(),
    ensures
        ({
            let a = spec_round(batch, st0, warm0, acc);
            &&& a.rejected == acc.rejected
            &&& a.wave == acc.wave + tx_ids(batch)
            &&& a.def_r == acc.def_r
            &&& a.def_w == acc.def_w
            &&& a.comm_r == acc.comm_r.union(models_r_union(batch, st0, warm0))
            &&& a.comm_w == acc.comm_w.union(models_w_union(batch, st0, warm0))
        }),
    decreases batch.len(),
{
    if batch.len() == 0 {
        let a = spec_round(batch, st0, warm0, acc);
        assert(a.wave =~= acc.wave + tx_ids(batch));
        assert(a.comm_r =~= acc.comm_r.union(models_r_union(batch, st0, warm0)));
        assert(a.comm_w =~= acc.comm_w.union(models_w_union(batch, st0, warm0)));
    } else {
        assert forall|i: int, j: int|
            #![trigger batch.drop_last()[i], batch.drop_last()[j]]
            0 <= i < batch.drop_last().len() && 0 <= j < batch.drop_last().len() && i != j implies
            !crate::types::sets_conflict(
            outcome_model(batch.drop_last()[i], st0, warm0).reads.to_set(),
            outcome_model(batch.drop_last()[i], st0, warm0).writes.to_set(),
            outcome_model(batch.drop_last()[j], st0, warm0).reads.to_set(),
            outcome_model(batch.drop_last()[j], st0, warm0).writes.to_set(),
        ) by {
            assert(batch.drop_last()[i] == batch[i]);
            assert(batch.drop_last()[j] == batch[j]);
        }
        assert forall|i: int|
            0 <= i < batch.drop_last().len() implies !crate::types::sets_conflict(
            outcome_model(#[trigger] batch.drop_last()[i], st0, warm0).reads.to_set(),
            outcome_model(batch.drop_last()[i], st0, warm0).writes.to_set(),
            acc.comm_r,
            acc.comm_w,
        ) by {
            assert(batch.drop_last()[i] == batch[i]);
        }
        lemma_round_accepts_all(batch.drop_last(), st0, warm0, acc);
        let prev = spec_round(batch.drop_last(), st0, warm0, acc);
        let tx = batch.last();
        let rm = outcome_model(tx, st0, warm0);
        assert(batch[batch.len() - 1] == tx);
        assert(!crate::types::sets_conflict(
            rm.reads.to_set(),
            rm.writes.to_set(),
            prev.comm_r,
            prev.comm_w,
        )) by {
            if crate::types::sets_conflict(
                rm.reads.to_set(),
                rm.writes.to_set(),
                prev.comm_r,
                prev.comm_w,
            ) {
                lemma_conflict_union(
                    rm.reads.to_set(),
                    rm.writes.to_set(),
                    acc.comm_r,
                    acc.comm_w,
                    models_r_union(batch.drop_last(), st0, warm0),
                    models_w_union(batch.drop_last(), st0, warm0),
                );
                if crate::types::sets_conflict(
                    rm.reads.to_set(),
                    rm.writes.to_set(),
                    models_r_union(batch.drop_last(), st0, warm0),
                    models_w_union(batch.drop_last(), st0, warm0),
                ) {
                    lemma_conflict_vs_union_fold(
                        rm.reads.to_set(),
                        rm.writes.to_set(),
                        batch.drop_last(),
                        st0,
                        warm0,
                    );
                    let i = choose|i: int|
                        0 <= i < batch.drop_last().len() && crate::types::sets_conflict(
                            rm.reads.to_set(),
                            rm.writes.to_set(),
                            outcome_model(
                                #[trigger] batch.drop_last()[i],
                                st0,
                                warm0,
                            ).reads.to_set(),
                            outcome_model(batch.drop_last()[i], st0, warm0).writes.to_set(),
                        );
                    assert(batch.drop_last()[i] == batch[i]);
                }
            }
        }
        assert(!crate::types::sets_conflict(
            rm.reads.to_set(),
            rm.writes.to_set(),
            prev.def_r,
            prev.def_w,
        )) by {
            if crate::types::sets_intersect(rm.writes.to_set(), prev.def_w) {
                let k = choose|k: Key| rm.writes.to_set().contains(k) && prev.def_w.contains(k);
            }
            if crate::types::sets_intersect(rm.writes.to_set(), prev.def_r) {
                let k = choose|k: Key| rm.writes.to_set().contains(k) && prev.def_r.contains(k);
            }
            if crate::types::sets_intersect(rm.reads.to_set(), prev.def_w) {
                let k = choose|k: Key| rm.reads.to_set().contains(k) && prev.def_w.contains(k);
            }
        }
        let a = spec_round(batch, st0, warm0, acc);
        assert(tx_ids(batch.drop_last()) =~= tx_ids(batch).drop_last());
        assert(a.wave =~= acc.wave + tx_ids(batch));
        assert(a.comm_r =~= acc.comm_r.union(models_r_union(batch, st0, warm0)));
        assert(a.comm_w =~= acc.comm_w.union(models_w_union(batch, st0, warm0)));
    }
}

/// Speedup sanity, first half: a pending pool whose members never
/// conflict, run with a cap at least its size, commits in one wave that
/// lists every id.
pub proof fn lemma_no_conflicts_single_wave(pending: Seq<Transaction>, cap: nat, st: ParState)
    requires
        pending.len() >= 1,
        cap >= pending.len(),
        forall|i: int, j: int|
            #![trigger pending[i], pending[j]]
            0 <= i < pending.len() && 0 <= j < pending.len() && i != j
                ==> !crate::types::sets_conflict(
                outcome_model(pending[i], st.storage, st.warm).reads.to_set(),
                outcome_model(pending[i], st.storage, st.warm).writes.to_set(),
                outcome_model(pending[j], st.storage, st.warm).reads.to_set(),
                outcome_model(pending[j], st.storage, st.warm).writes.to_set(),
            ),
    ensures
        spec_rounds(pending, cap, st).waves == st.waves.push(tx_ids(pending)),
{
    let n = min_len(pending.len(), cap) as int;
    assert(n == pending.len());
    let batch = pending.take(n);
    assert(batch =~= pending);
    let acc0 = round_init(st);
    assert forall|i: int|
        0 <= i < batch.len() implies !crate::types::sets_conflict(
        outcome_model(#[trigger] batch[i], st.storage, st.warm).reads.to_set(),
        outcome_model(batch[i], st.storage, st.warm).writes.to_set(),
        acc0.comm_r,
        acc0.comm_w,
    ) by {
        if crate::types::sets_intersect(
            outcome_model(batch[i], st.storage, st.warm).writes.to_set(),
            acc0.comm_w,
        ) {
            let k = choose|k: Key|
                outcome_model(batch[i], st.storage, st.warm).writes.to_set().contains(k)
                    && acc0.comm_w.contains(k);
        }
        if crate::types::sets_intersect(
            outcome_model(batch[i], st.storage, st.warm).writes.to_set(),
            acc0.comm_r,
        ) {
            let k = choose|k: Key|
                outcome_model(batch[i], st.storage, st.warm).writes.to_set().contains(k)
                    && acc0.comm_r.contains(k);
        }
        if crate::types::sets_intersect(
            outcome_model(batch[i], st.storage, st.warm).reads.to_set(),
            acc0.comm_w,
        ) {
            let k = choose|k: Key|
                outcome_model(batch[i], st.storage, st.warm).reads.to_set().contains(k)
                    && acc0.comm_w.contains(k);
        }
    }
    lemma_round_accepts_all(batch, st.storage, st.warm, acc0);
    let acc = spec_round(batch, st.storage, st.warm, acc0);
    assert(acc.wave =~= tx_ids(pending));
    assert(acc.wave.len() >= 1);
    let pend1 = acc.rejected + pending.skip(n);
    assert(pend1 =~= Seq::<Transaction>::empty());
    assert(spec_rounds(pend1, cap, after_round(st, acc)) == after_round(st, acc)) by {
        assert(pend1.len() == 0);
    }
    assert(spec_rounds(pending, cap, st) == spec_rounds(pend1, cap, after_round(st, acc)));
}

/// Whether every two distinct members conflict on every storage and
/// warmth; writers of one shared key do, whatever state they run on.
pub open spec fn pairwise_always_conflicting(p: Seq<Transaction>) -> bool {
    forall|st0: Map<Key, U256>, warm0: Seq<Key>, i: int, j: int|
        #![trigger outcome_model(p[i], st0, warm0), outcome_model(p[j], st0, warm0)]
        0 <= i < p.len() && 0 <= j < p.len() && i != j ==> crate::types::sets_conflict(
            outcome_model(p[i], st0, warm0).reads.to_set(),
            outcome_model(p[i], st0, warm0).writes.to_set(),
            outcome_model(p[j], st0, warm0).reads.to_set(),
            outcome_model(p[j], st0, warm0).writes.to_set(),
        )
}

/// A batch whose members all conflict commits only its first transaction;
/// the rest are deferred in order.
proof fn lemma_round_rejects_rest(
    batch: Seq<Transaction>,
    st0: Map<Key, U256>,
    warm0: Seq<Key>,
    acc: crate::parallel::RoundAcc,
    k: int,
)
    requires
        1 <= k <= batch.len(),
        pairwise_always_conflicting(batch),
        acc.comm_r == Set::<Key>::empty(),
        acc.comm_w == Set::<Key>::empty(),
        acc.def_r == Set::<Key>::empty(),
        acc.def_w == Set::<Key>::empty(),
        acc.wave.len() == 0,
        acc.rejected.len() == 0,
    ensures
        ({
            let a = spec_round(batch.take(k), st0, warm0, acc);
            &&& a.wave =~= seq![batch[0].id]
            &&& a.rejected =~= batch.subrange(1, k)
            &&& a.comm_r == Set::<Key>::empty().union(
                outcome_model(batch[0], st0, warm0).reads.to_set(),
            )
            &&& a.comm_w == Set::<Key>::empty().union(
                outcome_model(batch[0], st0, warm0).writes.to_set(),
            )
        }),
    decreases k,
{
    let rm0 = outcome_model(batch[0], st0, warm0);
    if k == 1 {
        let b1 = batch.take(1);
        assert(b1.drop_last() =~= Seq::<Transaction>::empty());
        assert(spec_round(b1.drop_last(), st0, warm0, acc) == acc);
        assert(b1.last() == batch[0]);
        assert(!crate::types::sets_conflict(
            rm0.reads.to_set(),
            rm0.writes.to_set(),
            acc.comm_r,
            acc.comm_w,
        )) by {
            if crate::types::sets_intersect(rm0.writes.to_set(), acc.comm_w) {
                let k2 = choose|k2: Key| rm0.writes.to_set().contains(k2) && acc.comm_w.contains(k2);
            }
            if crate::types::sets_intersect(rm0.writes.to_set(), acc.comm_r) {
                let k2 = choose|k2: Key| rm0.writes.to_set().contains(k2) && acc.comm_r.contains(k2);
            }
            if crate::types::sets_intersect(rm0.reads.to_set(), acc.comm_w) {
                let k2 = choose|k2: Key| rm0.reads.to_set().contains(k2) && acc.comm_w.contains(k2);
            }
        }
        assert(!crate::types::sets_conflict(
            rm0.reads.to_set(),
            rm0.writes.to_set(),
            acc.def_r,
            acc.def_w,
        )) by {
            if crate::types::sets_intersect(rm0.writes.to_set(), acc.def_w) {
                let k2 = choose|k2: Key| rm0.writes.to_set().contains(k2) && acc.def_w.contains(k2);
            }
            if crate::types::sets_intersect(rm0.writes.to_set(), acc.def_r) {
                let k2 = choose|k2: Key| rm0.writes.to_set().contains(k2) && acc.def_r.contains(k2);
            }
            if crate::types::sets_intersect(rm0.reads.to_set(), acc.def_w) {
                let k2 = choose|k2: Key| rm0.reads.to_set().contains(k2) && acc.def_w.contains(k2);
            }
        }
        let a = spec_round(b1, st0, warm0, acc);
        assert(a.wave =~= seq![batch[0].id]);
        assert(a.rejected =~= batch.subrange(1, 1));
    } else {
        lemma_round_rejects_rest(batch, st0, warm0, acc, k - 1);
        assert(batch.take(k).drop_last() =~= batch.take(k - 1));
        let prev = spec_round(batch.take(k - 1), st0, warm0, acc);
        let tx = batch.take(k).last();
        assert(tx == batch[k - 1]);
        let rm = outcome_model(tx, st0, warm0);
        assert(crate::types::sets_conflict(
            rm.reads.to_set(),
            rm.writes.to_set(),
            rm0.reads.to_set(),
            rm0.writes.to_set(),
        ));
        assert(crate::types::sets_conflict(
            rm.reads.to_set(),
            rm.writes.to_set(),
            prev.comm_r,
            prev.comm_w,
        )) by {
            lemma_conflict_union(
                rm.reads.to_set(),
                rm.writes.to_set(),
                Set::<Key>::empty(),
                Set::<Key>::empty(),
                rm0.reads.to_set(),
                rm0.writes.to_set(),
            );
            assert(prev.comm_r == Set::<Key>::empty().union(rm0.reads.to_set()));
        }
        let a = spec_round(batch.take(k), st0, warm0, acc);
        assert(a.wave == prev.wave);
        assert(a.rejected =~= batch.subrange(1, k)) by {
            assert(a.rejected == prev.rejected.push(tx));
            assert(batch.subrange(1, k) =~= batch.subrange(1, k - 1).push(batch[k - 1]));
        }
    }
}

/// Speedup sanity, second half: a pool whose members always conflict
/// commits one transaction per round, so there are as many waves as
/// transactions.
pub proof fn lemma_all_conflicting_singleton_waves(
    pending: Seq<Transaction>,
    cap: nat,
    st: ParState,
)
    requires
        cap >= 1,
        pairwise_always_conflicting(pending),
    ensures
        spec_rounds(pending, cap, st).waves.len() == st.waves.len() + pending.len(),
    decreases pending.len(),
{
    if pending.len() == 0 {
    } else {
        let n = min_len(pending.len(), cap) as int;
        let batch = pending.take(n);
        let acc0 = round_init(st);
        assert(pairwise_always_conflicting(batch)) by {
            assert forall|st0: Map<Key, U256>, warm0: Seq<Key>, i: int, j: int|
                #![trigger outcome_model(batch[i], st0, warm0), outcome_model(batch[j], st0, warm0)]
                0 <= i < batch.len() && 0 <= j < batch.len() && i != j implies
                crate::types::sets_conflict(
                outcome_model(batch[i], st0, warm0).reads.to_set(),
                outcome_model(batch[i], st0, warm0).writes.to_set(),
                outcome_model(batch[j], st0, warm0).reads.to_set(),
                outcome_model(batch[j], st0, warm0).writes.to_set(),
            ) by {
                assert(batch[i] == pending[i]);
                assert(batch[j] == pending[j]);
                assert(outcome_model(pending[i], st0, warm0) == outcome_model(batch[i], st0, warm0));
            }
        }
        lemma_round_rejects_rest(batch, st.storage, st.warm, acc0, n);
        let acc = spec_round(batch, st.storage, st.warm, acc0);
        assert(batch.take(n) =~= batch);
        assert(acc.wave.len() == 1);
        assert(acc.rejected.len() == n - 1);
        let pend1 = acc.rejected + pending.skip(n);
        assert(pend1 =~= pending.subrange(1, n) + pending.skip(n));
        assert(pend1 =~= pending.skip(1));
        assert(pairwise_always_conflicting(pend1)) by {
            assert forall|st0: Map<Key, U256>, warm0: Seq<Key>, i: int, j: int|
                #![trigger outcome_model(pend1[i], st0, warm0), outcome_model(pend1[j], st0, warm0)]
                0 <= i < pend1.len() && 0 <= j < pend1.len() && i != j implies
                crate::types::sets_conflict(
                outcome_model(pend1[i], st0, warm0).reads.to_set(),
                outcome_model(pend1[i], st0, warm0).writes.to_set(),
                outcome_model(pend1[j], st0, warm0).reads.to_set(),
                outcome_model(pend1[j], st0, warm0).writes.to_set(),
            ) by {
                assert(pend1[i] == pending[i + 1]);
                assert(pend1[j] == pending[j + 1]);
                assert(outcome_model(pending[i + 1], st0, warm0) == outcome_model(
                    pend1[i],
                    st0,
                    warm0,
                ));
            }
        }
        lemma_all_conflicting_singleton_waves(pend1, cap, after_round(st, acc));
        assert(after_round(st, acc).waves.len() == st.waves.len() + 1);
        assert(spec_rounds(pending, cap, st) == spec_rounds(pend1, cap, after_round(st, acc)));
    }
}

/// A round from an empty wave binds exactly the committed ids, and leaves
/// every other binding alone.
pub proof fn lemma_round_frame(
    batch: Seq<Transaction>,
    st0: Map<Key, U256>,
    warm0: Seq<Key>,
    acc: crate::parallel::RoundAcc,
)
    requires
        acc.wave.len() == 0,
    ensures
        ({
            let a = spec_round(batch, st0, warm0, acc);
            &&& a.results.dom() == acc.results.dom().union(a.wave.to_set())
            &&& forall|id: u64|
                acc.results.dom().contains(id) && !a.wave.contains(id)
                    ==> a.results.dom().contains(id) && a.results[id] == acc.results[id]
        }),
{
    lemma_round_frame_gen(batch, st0, warm0, acc);
    let a = spec_round(batch, st0, warm0, acc);
    assert(a.wave.to_set().difference(acc.wave.to_set()) =~= a.wave.to_set());
    assert(a.results.dom() =~= acc.results.dom().union(a.wave.to_set()));
}

/// The inductive core of the round frame, over any starting wave whose
/// ids are bound and disjoint from the batch.
proof fn lemma_round_frame_gen(
    batch: Seq<Transaction>,
    st0: Map<Key, U256>,
    warm0: Seq<Key>,
    acc: crate::parallel::RoundAcc,
)
    requires
        forall|x: u64| #[trigger] acc.wave.contains(x) ==> acc.results.dom().contains(x),
        forall|i: int| 0 <= i < batch.len() ==> !acc.wave.contains((#[trigger] batch[i]).id),
    ensures
        ({
            let a = spec_round(batch, st0, warm0, acc);
            &&& a.results.dom() == acc.results.dom().union(
                a.wave.to_set().difference(acc.wave.to_set()),
            )
            &&& forall|x: u64| #[trigger] acc.wave.contains(x) ==> a.wave.contains(x)
            &&& forall|id: u64|
                !(a.wave.contains(id) && !acc.wave.contains(id)) ==> ((
                #[trigger] a.results.dom().contains(id) <==> acc.results.dom().contains(id)) && (
                acc.results.dom().contains(id) ==> a.results[id] == acc.results[id]))
        }),
    decreases batch.len(),
{
    if batch.len() == 0 {
        let a = spec_round(batch, st0, warm0, acc);
        assert(a.results.dom() =~= acc.results.dom().union(
            a.wave.to_set().difference(acc.wave.to_set()),
        ));
    } else {
        assert forall|i: int|
            0 <= i < batch.drop_last().len() implies !acc.wave.contains(
            (#[trigger] batch.drop_last()[i]).id,
        ) by {
            assert(batch.drop_last()[i] == batch[i]);
        }
        lemma_round_frame_gen(batch.drop_last(), st0, warm0, acc);
        let prev = spec_round(batch.drop_last(), st0, warm0, acc);
        let tx = batch.last();
        let (mend, err) = tx_outcome(tx, st0, warm0);
        let rm = crate::evm::result_model_of(tx, mend, err);
        let a = spec_round(batch, st0, warm0, acc);
        if crate::types::sets_conflict(
            rm.reads.to_set(),
            rm.writes.to_set(),
            prev.comm_r,
            prev.comm_w,
        ) || crate::types::sets_conflict(
            rm.reads.to_set(),
            rm.writes.to_set(),
            prev.def_r,
            prev.def_w,
        ) {
            assert(a.results == prev.results && a.wave == prev.wave);
        } else {
            assert(a.wave == prev.wave.push(tx.id));
            assert(a.results == prev.results.insert(tx.id, rm));
            assert(!acc.wave.contains(tx.id)) by {
                assert(batch[batch.len() - 1] == tx);
            }
            assert forall|x: u64| prev.wave.contains(x) implies a.wave.contains(x) by {
                let p = choose|p: int| 0 <= p < prev.wave.len() && prev.wave[p] == x;
                assert(a.wave[p] == x);
            }
            assert forall|x: u64| a.wave.contains(x) implies prev.wave.contains(x) || x == tx.id
                by {
                let p = choose|p: int| 0 <= p < a.wave.len() && a.wave[p] == x;
                if p < prev.wave.len() {
                    assert(prev.wave[p] == x);
                }
            }
            assert(a.wave.contains(tx.id)) by {
                assert(a.wave[a.wave.len() - 1] == tx.id);
            }
            assert(a.results.dom() =~= acc.results.dom().union(
                a.wave.to_set().difference(acc.wave.to_set()),
            )) by {
                assert(prev.results.dom() == acc.results.dom().union(
                    prev.wave.to_set().difference(acc.wave.to_set()),
                ));
                assert forall|id: u64| a.results.dom().contains(id) implies
                    acc.results.dom().contains(id) || a.wave.to_set().difference(
                    acc.wave.to_set(),
                ).contains(id) by {
                    if id != tx.id {
                        assert(prev.results.dom().contains(id));
                        if prev.wave.to_set().contains(id) {
                            assert(prev.wave.contains(id));
                        }
                    }
                }
                assert forall|id: u64|
                    acc.results.dom().contains(id) || a.wave.to_set().difference(
                    acc.wave.to_set(),
                ).contains(id) implies a.results.dom().contains(id) by {
                    if id != tx.id {
                        if a.wave.to_set().contains(id) {
                            assert(a.wave.contains(id));
                            assert(prev.wave.contains(id));
                            assert(prev.wave.to_set().contains(id));
                        }
                        assert(prev.results.dom().contains(id));
                    }
                }
            }
        }
    }
}

/// Every recorded wave lists ids bound in the results, any two of which
/// carry non-conflicting observed sets.
pub open spec fn waves_ok(waves: Seq<Seq<u64>>, results: Map<u64, crate::evm::ResultModel>) -> bool {
    &&& forall|wi: int, p: int|
        #![trigger waves[wi][p]]
        0 <= wi < waves.len() && 0 <= p < waves[wi].len() ==> results.dom().contains(waves[wi][p])
    &&& forall|wi: int, p: int, q: int|
        #![trigger waves[wi][p], waves[wi][q]]
        0 <= wi < waves.len() && 0 <= p < waves[wi].len() && 0 <= q < waves[wi].len() && p != q
            ==> !crate::types::sets_conflict(
            results[waves[wi][p]].reads.to_set(),
            results[waves[wi][p]].writes.to_set(),
            results[waves[wi][q]].reads.to_set(),
            results[waves[wi][q]].writes.to_set(),
        )
}

/// Intra-wave independence over the whole execution: each committed wave
/// of the final state is pairwise non-conflicting on the observed sets the
/// final results record.
pub proof fn lemma_waves_independent(pending: Seq<Transaction>, cap: nat, st: ParState)
    requires
        cap >= 1,
        crate::mis::strictly_ascending(tx_ids(pending)),
        forall|i: int|
            0 <= i < pending.len() ==> !st.results.dom().contains((#[trigger] pending[i]).id),
        waves_ok(st.waves, st.results),
    ensures
        waves_ok(spec_rounds(pending, cap, st).waves, spec_rounds(pending, cap, st).results),
    decreases pending.len(),
{
    if pending.len() == 0 {
    } else {
        let n = min_len(pending.len(), cap) as int;
        let batch = pending.take(n);
        let acc0 = round_init(st);
        assert(tx_ids(batch) =~= tx_ids(pending).take(n));
        assert(tx_ids(batch).no_duplicates()) by {
            assert forall|a: int, b: int|
                0 <= a < b < tx_ids(batch).len() implies tx_ids(batch)[a] != tx_ids(batch)[b] by {
                assert(tx_ids(pending)[a] < tx_ids(pending)[b]);
            }
        }
        lemma_wave_independence(batch, st.storage, st.warm, acc0);
        lemma_round_frame(batch, st.storage, st.warm, acc0);
        lemma_round_partition(batch, st.storage, st.warm, acc0);
        crate::parallel::lemma_round_progress(batch, st.storage, st.warm, acc0);
        let acc = spec_round(batch, st.storage, st.warm, acc0);
        let st1 = after_round(st, acc);
        let pend1 = acc.rejected + pending.skip(n);
        // the committed ids all come from the batch
        assert forall|x: u64| #[trigger] acc.wave.contains(x) implies tx_ids(batch).contains(x)
            by {}
        // old waves keep their bindings: their ids are outside the batch
        assert forall|wi: int, p: int|
            #![trigger st.waves[wi][p]]
            0 <= wi < st.waves.len() && 0 <= p < st.waves[wi].len() implies
            acc.results.dom().contains(st.waves[wi][p]) && acc.results[st.waves[wi][p]]
                == st.results[st.waves[wi][p]] by {
            let x = st.waves[wi][p];
            assert(st.results.dom().contains(x));
            assert(!acc.wave.contains(x)) by {
                if acc.wave.contains(x) {
                    assert(tx_ids(batch).contains(x));
                    let t = choose|t: int| 0 <= t < tx_ids(batch).len() && tx_ids(batch)[t] == x;
                    assert(batch[t].id == x);
                    assert(pending[t].id == x);
                }
            }
        }
        assert(waves_ok(st1.waves, st1.results)) by {
            assert forall|wi: int, p: int|
                #![trigger st1.waves[wi][p]]
                0 <= wi < st1.waves.len() && 0 <= p < st1.waves[wi].len() implies
                st1.results.dom().contains(st1.waves[wi][p]) by {
                if wi < st.waves.len() {
                    assert(st1.waves[wi] == st.waves[wi]);
                } else {
                    assert(st1.waves[wi] == acc.wave);
                    assert(acc.wave.contains(acc.wave[p]));
                }
            }
            assert forall|wi: int, p: int, q: int|
                #![trigger st1.waves[wi][p], st1.waves[wi][q]]
                0 <= wi < st1.waves.len() && 0 <= p < st1.waves[wi].len() && 0 <= q
                    < st1.waves[wi].len() && p != q implies !crate::types::sets_conflict(
                st1.results[st1.waves[wi][p]].reads.to_set(),
                st1.results[st1.waves[wi][p]].writes.to_set(),
                st1.results[st1.waves[wi][q]].reads.to_set(),
                st1.results[st1.waves[wi][q]].writes.to_set(),
            ) by {
                if wi < st.waves.len() {
                    assert(st1.waves[wi] == st.waves[wi]);
                } else {
                    assert(st1.waves[wi] == acc.wave);
                }
            }
        }
        // the re-queued pool is ascending and disjoint from the results
        assert(tx_ids(pend1) =~= tx_ids(acc.rejected) + tx_ids(pending.skip(n)));
        assert(tx_ids(pending.skip(n)) =~= tx_ids(pending).skip(n));
        assert forall|x: u64| #[trigger] tx_ids(acc.rejected).contains(x) implies tx_ids(
            batch,
        ).contains(x) by {
            assert(!(acc.wave.contains(x) && tx_ids(acc.rejected).contains(x)));
        }
        assert(crate::mis::strictly_ascending(tx_ids(pend1))) by {
            assert forall|i: int, j: int|
                0 <= i < j < tx_ids(pend1).len() implies tx_ids(pend1)[i] < tx_ids(pend1)[j] by {
                let rl = tx_ids(acc.rejected).len();
                if j < rl {
                } else if i >= rl {
                    assert(tx_ids(pend1)[i] == tx_ids(pending)[n + i - rl]);
                    assert(tx_ids(pend1)[j] == tx_ids(pending)[n + j - rl]);
                } else {
                    let x = tx_ids(pend1)[i];
                    assert(tx_ids(acc.rejected)[i] == x);
                    assert(tx_ids(acc.rejected).contains(x));
                    assert(tx_ids(batch).contains(x));
                    let k = choose|k: int| 0 <= k < tx_ids(batch).len() && tx_ids(batch)[k] == x;
                    assert(tx_ids(pending)[k] == x);
                    assert(tx_ids(pend1)[j] == tx_ids(pending)[n + j - rl]);
                    assert(tx_ids(pending)[k] < tx_ids(pending)[n + j - rl]);
                }
            }
        }
        assert forall|i: int|
            0 <= i < pend1.len() implies !st1.results.dom().contains((#[trigger] pend1[i]).id) by {
            let x = pend1[i].id;
            assert(tx_ids(pend1)[i] == x);
            let rl = tx_ids(acc.rejected).len();
            assert(!st.results.dom().contains(x)) by {
                if i < rl {
                    assert(tx_ids(acc.rejected)[i] == x);
                    assert(tx_ids(acc.rejected).contains(x));
                    assert(tx_ids(batch).contains(x));
                    let k = choose|k: int| 0 <= k < tx_ids(batch).len() && tx_ids(batch)[k] == x;
                    assert(pending[k].id == x);
                } else {
                    assert(tx_ids(pend1)[i] == tx_ids(pending)[n + i - rl]);
                    assert(pending[n + i - rl].id == x);
                }
            }
            assert(!acc.wave.contains(x)) by {
                if acc.wave.contains(x) {
                    if i < rl {
                        assert(tx_ids(acc.rejected)[i] == x);
                        assert(tx_ids(acc.rejected).contains(x));
                    } else {
                        assert(tx_ids(batch).contains(x));
                        let k = choose|k: int|
                            0 <= k < tx_ids(batch).len() && tx_ids(batch)[k] == x;
                        assert(tx_ids(pending)[k] == x);
                        assert(tx_ids(pend1)[i] == tx_ids(pending)[n + i - rl]);
                        assert(tx_ids(pending)[k] < tx_ids(pending)[n + i - rl]);
                    }
                }
            }
            assert(!st1.results.dom().contains(x)) by {
                if st1.results.dom().contains(x) {
                    assert(acc.results.dom() == st.results.dom().union(acc.wave.to_set()));
                    assert(st.results.dom().contains(x) || acc.wave.to_set().contains(x));
                }
            }
        }
        lemma_waves_independent(pend1, cap, st1);
        assert(spec_rounds(pending, cap, st) == spec_rounds(pend1, cap, st1));
    }
}

/// The waves a whole block execution records are pairwise non-conflicting
/// on the observed access sets of its final results.
pub proof fn lemma_waves_independent_block(txs: Seq<Transaction>, cap: nat, st0: Map<Key, U256>)
    requires
        cap >= 1,
        crate::mis::strictly_ascending(tx_ids(txs)),
    ensures
        waves_ok(
            spec_rounds(txs, cap, par_init(st0)).waves,
            spec_rounds(txs, cap, par_init(st0)).results,
        ),
{
    lemma_waves_independent(txs, cap, par_init(st0));
}

/// The largest gas any state could be charged for one micro-op.
pub open spec fn max_op_gas(op: crate::types::MicroOp) -> int {
    match op {
        crate::types::MicroOp::SLoad(k) => crate::evm::COLD_SLOAD_COST as int,
        crate::types::MicroOp::SStore(k, v) => crate::evm::COLD_SSTORE_COST as int,
        crate::types::MicroOp::Add(v) => crate::evm::ADD_COST as int,
        crate::types::MicroOp::Sub(v) => crate::evm::SUB_COST as int,
        crate::types::MicroOp::Keccak(d) => crate::evm::spec_keccak_gas(d@.len()),
        crate::types::MicroOp::NoOp => crate::evm::NOOP_COST as int,
    }
}

/// The largest gas any state could be charged for a program.
pub open spec fn prog_max_gas(prog: Seq<crate::types::MicroOp>) -> int
    decreases prog.len(),
{
    if prog.len() == 0 {
        0
    } else {
        max_op_gas(prog[0]) + prog_max_gas(prog.skip(1))
    }
}

/// Worst-case program gas is never negative.
pub proof fn lemma_prog_max_gas_nonneg(prog: Seq<crate::types::MicroOp>)
    ensures
        prog_max_gas(prog) >= 0,
    decreases prog.len(),
{
    if prog.len() > 0 {
        lemma_prog_max_gas_nonneg(prog.skip(1));
    }
}

/// How the states of a lockstep pair relate: equal access bookkeeping,
/// equal stack depth, and agreement on every written key.
pub open spec fn run_rel(ma: crate::evm::EvmState, mb: crate::evm::EvmState) -> bool {
    &&& ma.writes == mb.writes
    &&& ma.reads == mb.reads
    &&& ma.stack.len() == mb.stack.len()
    &&& forall|k: Key|
        #[trigger] ma.writes.contains(k) ==> ma.storage.dom().contains(k)
            && mb.storage.dom().contains(k) && ma.storage[k] == mb.storage[k]
}

/// One lockstep step: under the worst-case gas budget, a micro-op either
/// fails both runs with the same stack underflow or moves both to related
/// states.
#[verifier::spinoff_prover]
proof fn lemma_step_sim(
    op: crate::types::MicroOp,
    ma: crate::evm::EvmState,
    mb: crate::evm::EvmState,
)
    requires
        run_rel(ma, mb),
        0 <= ma.gas,
        0 <= mb.gas,
        ma.gas + max_op_gas(op) <= u64::MAX,
        mb.gas + max_op_gas(op) <= u64::MAX,
    ensures
        ({
            let sa = crate::evm::spec_step(op, ma, u64::MAX as int);
            let sb = crate::evm::spec_step(op, mb, u64::MAX as int);
            &&& (sa is Next) == (sb is Next)
            &&& sa is Fail ==> sb is Fail && sa->Fail_1 == sb->Fail_1
            &&& sa is Next ==> run_rel(sa->Next_0, sb->Next_0) && 0 <= sa->Next_0.gas <= ma.gas
                + max_op_gas(op) && 0 <= sb->Next_0.gas <= mb.gas + max_op_gas(op)
        }),
{
    match op {
        crate::types::MicroOp::SStore(k, v) => {
            let sa = crate::evm::spec_step(op, ma, u64::MAX as int);
            let sb = crate::evm::spec_step(op, mb, u64::MAX as int);
            assert(sa is Next && sb is Next);
            let na = sa->Next_0;
            let nb = sb->Next_0;
            assert forall|k2: Key| #[trigger] na.writes.contains(k2) implies
                na.storage.dom().contains(k2) && nb.storage.dom().contains(k2) && na.storage[k2]
                    == nb.storage[k2] by {
                crate::types::lemma_key_add_contains(ma.writes, k, k2);
                if k2 != k {
                    assert(ma.writes.contains(k2));
                }
            }
        },
        _ => {},
    }
}

/// State independence of the interpreter under the worst-case gas budget:
/// two runs of one program from related states fail alike, write the same
/// keys, and leave those keys holding the same values, whatever else their
/// storages and warmth held.
#[verifier::spinoff_prover]
pub proof fn lemma_run_state_independent(
    prog: Seq<crate::types::MicroOp>,
    ma: crate::evm::EvmState,
    mb: crate::evm::EvmState,
)
    requires
        run_rel(ma, mb),
        0 <= ma.gas,
        0 <= mb.gas,
        ma.gas + prog_max_gas(prog) <= u64::MAX,
        mb.gas + prog_max_gas(prog) <= u64::MAX,
    ensures
        ({
            let (fa, ea) = crate::evm::spec_run(prog, ma, u64::MAX as int);
            let (fb, eb) = crate::evm::spec_run(prog, mb, u64::MAX as int);
            ea == eb && run_rel(fa, fb)
        }),
    decreases prog.len(),
{
    if prog.len() > 0 {
        let limit = u64::MAX as int;
        let op = prog[0];
        lemma_prog_max_gas_nonneg(prog.skip(1));
        assert(prog_max_gas(prog) == max_op_gas(op) + prog_max_gas(prog.skip(1)));
        lemma_step_sim(op, ma, mb);
        let sa = crate::evm::spec_step(op, ma, limit);
        let sb = crate::evm::spec_step(op, mb, limit);
        if sa is Next {
            lemma_run_state_independent(prog.skip(1), sa->Next_0, sb->Next_0);
        }
    }
}

/// State independence per transaction: with the worst-case gas budget in
/// range, a transaction fails alike, writes the same keys, and writes the
/// same values, whatever storage and warmth it starts from.
pub proof fn lemma_tx_outcome_state_independent(
    tx: Transaction,
    st_a: Map<Key, U256>,
    warm_a: Seq<Key>,
    st_b: Map<Key, U256>,
    warm_b: Seq<Key>,
)
    requires
        prog_max_gas(tx.metadata.program@) <= u64::MAX,
    ensures
        ({
            let (fa, ea) = tx_outcome(tx, st_a, warm_a);
            let (fb, eb) = tx_outcome(tx, st_b, warm_b);
            &&& ea == eb
            &&& fa.writes == fb.writes
            &&& fa.reads == fb.reads
            &&& forall|k: Key|
                #[trigger] fa.writes.contains(k) ==> fa.storage.dom().contains(k)
                    && fb.storage.dom().contains(k) && fa.storage[k] == fb.storage[k]
        }),
{
    let ea_entry = crate::evm::tx_start(
        tx,
        crate::evm::EvmState {
            storage: st_a,
            warm: warm_a,
            cold: Seq::<Key>::empty(),
            reads: Seq::<Key>::empty(),
            writes: Seq::<Key>::empty(),
            gas: 0,
            stack: Seq::<nat>::empty(),
        },
    );
    let eb_entry = crate::evm::tx_start(
        tx,
        crate::evm::EvmState {
            storage: st_b,
            warm: warm_b,
            cold: Seq::<Key>::empty(),
            reads: Seq::<Key>::empty(),
            writes: Seq::<Key>::empty(),
            gas: 0,
            stack: Seq::<nat>::empty(),
        },
    );
    assert(run_rel(ea_entry, eb_entry));
    lemma_run_state_independent(tx.metadata.program@, ea_entry, eb_entry);
}

/// Committing the same written keys from two task storages that agree on
/// them lands in the same shared storage.
pub proof fn lemma_commit_writes_agree(
    base: Map<Key, U256>,
    ta: Map<Key, U256>,
    tb: Map<Key, U256>,
    ws: Seq<Key>,
)
    requires
        forall|k: Key|
            #[trigger] ws.contains(k) ==> ta.dom().contains(k) && tb.dom().contains(k) && ta[k]
                == tb[k],
    ensures
        crate::evm::commit_writes(base, ta, ws) == crate::evm::commit_writes(base, tb, ws),
    decreases ws.len(),
{
    if ws.len() > 0 {
        assert forall|k: Key| #[trigger] ws.drop_last().contains(k) implies ta.dom().contains(k)
            && tb.dom().contains(k) && ta[k] == tb[k] by {
            let i = choose|i: int| 0 <= i < ws.drop_last().len() && ws.drop_last()[i] == k;
            assert(ws[i] == k);
            assert(ws.contains(k));
        }
        lemma_commit_writes_agree(base, ta, tb, ws.drop_last());
        assert(ws.contains(ws.last())) by {
            assert(ws[ws.len() - 1] == ws.last());
        }
    }
}

/// Serial execution splits over concatenation: run the first part, then
/// the second from where it left off.
pub proof fn lemma_serial_append(
    a: Seq<Transaction>,
    b: Seq<Transaction>,
    st: crate::evm::SerialState,
)
    ensures
        spec_serial(a + b, st) == spec_serial(b, spec_serial(a, st)),
    decreases b.len(),
{
    if b.len() == 0 {
        assert(a + b =~= a);
        assert(spec_serial(b, spec_serial(a, st)) == spec_serial(a, st));
    } else {
        lemma_serial_append(a, b.drop_last(), st);
        assert((a + b).drop_last() =~= a + b.drop_last());
        assert((a + b).last() == b.last());
        assert((a + b).len() > 0);
    }
}

/// Every member's worst-case gas fits the counter.
pub open spec fn gas_budgeted(p: Seq<Transaction>) -> bool {
    forall|i: int|
        0 <= i < p.len() ==> prog_max_gas((#[trigger] p[i]).metadata.program@) <= u64::MAX
}

/// Whether no two distinct members conflict on their observed sets,
/// whatever storage and warmth they run on.
pub open spec fn pairwise_never_conflicting(p: Seq<Transaction>) -> bool {
    forall|st0: Map<Key, U256>, warm0: Seq<Key>, i: int, j: int|
        #![trigger outcome_model(p[i], st0, warm0), outcome_model(p[j], st0, warm0)]
        0 <= i < p.len() && 0 <= j < p.len() && i != j ==> !crate::types::sets_conflict(
            outcome_model(p[i], st0, warm0).reads.to_set(),
            outcome_model(p[i], st0, warm0).writes.to_set(),
            outcome_model(p[j], st0, warm0).reads.to_set(),
            outcome_model(p[j], st0, warm0).writes.to_set(),
        )
}

/// One conflict-free batch commits whole, and lands the shared storage
/// exactly where serial execution of the same batch lands it.
proof fn lemma_round_matches_serial(
    batch: Seq<Transaction>,
    st0: Map<Key, U256>,
    warm0: Seq<Key>,
    acc: crate::parallel::RoundAcc,
    sst: crate::evm::SerialState,
)
    requires
        gas_budgeted(batch),
        forall|i: int, j: int|
            #![trigger batch[i], batch[j]]
            0 <= i < batch.len() && 0 <= j < batch.len() && i != j
                ==> !crate::types::sets_conflict(
                outcome_model(batch[i], st0, warm0).reads.to_set(),
                outcome_model(batch[i], st0, warm0).writes.to_set(),
                outcome_model(batch[j], st0, warm0).reads.to_set(),
                outcome_model(batch[j], st0, warm0).writes.to_set(),
            ),
        acc.comm_r == Set::<Key>::empty(),
        acc.comm_w == Set::<Key>::empty(),
        acc.def_r == Set::<Key>::empty(),
        acc.def_w == Set::<Key>::empty(),
        acc.rejected.len() == 0,
        acc.storage == sst.storage,
    ensures
        ({
            let a = spec_round(batch, st0, warm0, acc);
            &&& a.rejected.len() == 0
            &&& a.def_r == acc.def_r
            &&& a.def_w == acc.def_w
            &&& a.comm_r == acc.comm_r.union(models_r_union(batch, st0, warm0))
            &&& a.comm_w == acc.comm_w.union(models_w_union(batch, st0, warm0))
            &&& a.storage == spec_serial(batch, sst).storage
        }),
    decreases batch.len(),
{
    if batch.len() == 0 {
        let a = spec_round(batch, st0, warm0, acc);
        assert(a.comm_r =~= acc.comm_r.union(models_r_union(batch, st0, warm0)));
        assert(a.comm_w =~= acc.comm_w.union(models_w_union(batch, st0, warm0)));
    } else {
        assert(gas_budgeted(batch.drop_last())) by {
            assert forall|i: int|
                0 <= i < batch.drop_last().len() implies prog_max_gas(
                (#[trigger] batch.drop_last()[i]).metadata.program@,
            ) <= u64::MAX by {
                assert(batch.drop_last()[i] == batch[i]);
            }
        }
        assert forall|i: int, j: int|
            #![trigger batch.drop_last()[i], batch.drop_last()[j]]
            0 <= i < batch.drop_last().len() && 0 <= j < batch.drop_last().len() && i != j implies
            !crate::types::sets_conflict(
            outcome_model(batch.drop_last()[i], st0, warm0).reads.to_set(),
            outcome_model(batch.drop_last()[i], st0, warm0).writes.to_set(),
            outcome_model(batch.drop_last()[j], st0, warm0).reads.to_set(),
            outcome_model(batch.drop_last()[j], st0, warm0).writes.to_set(),
        ) by {
            assert(batch.drop_last()[i] == batch[i]);
            assert(batch.drop_last()[j] == batch[j]);
        }
        lemma_round_matches_serial(batch.drop_last(), st0, warm0, acc, sst);
        let prev = spec_round(batch.drop_last(), st0, warm0, acc);
        let sprev = spec_serial(batch.drop_last(), sst);
        let tx = batch.last();
        let rm = outcome_model(tx, st0, warm0);
        assert(batch[batch.len() - 1] == tx);
        // the last transaction is accepted: it conflicts with nothing
        // committed so far
        assert(!crate::types::sets_conflict(
            rm.reads.to_set(),
            rm.writes.to_set(),
            prev.comm_r,
            prev.comm_w,
        )) by {
            if crate::types::sets_conflict(
                rm.reads.to_set(),
                rm.writes.to_set(),
                prev.comm_r,
                prev.comm_w,
            ) {
                lemma_conflict_union(
                    rm.reads.to_set(),
                    rm.writes.to_set(),
                    acc.comm_r,
                    acc.comm_w,
                    models_r_union(batch.drop_last(), st0, warm0),
                    models_w_union(batch.drop_last(), st0, warm0),
                );
                if crate::types::sets_conflict(
                    rm.reads.to_set(),
                    rm.writes.to_set(),
                    acc.comm_r,
                    acc.comm_w,
                ) {
                    if crate::types::sets_intersect(rm.writes.to_set(), acc.comm_w) {
                        let k = choose|k: Key|
                            rm.writes.to_set().contains(k) && acc.comm_w.contains(k);
                    }
                    if crate::types::sets_intersect(rm.writes.to_set(), acc.comm_r) {
                        let k = choose|k: Key|
                            rm.writes.to_set().contains(k) && acc.comm_r.contains(k);
                    }
                    if crate::types::sets_intersect(rm.reads.to_set(), acc.comm_w) {
                        let k = choose|k: Key|
                            rm.reads.to_set().contains(k) && acc.comm_w.contains(k);
                    }
                } else {
                    lemma_conflict_vs_union_fold(
                        rm.reads.to_set(),
                        rm.writes.to_set(),
                        batch.drop_last(),
                        st0,
                        warm0,
                    );
                    let i = choose|i: int|
                        0 <= i < batch.drop_last().len() && crate::types::sets_conflict(
                            rm.reads.to_set(),
                            rm.writes.to_set(),
                            outcome_model(
                                #[trigger] batch.drop_last()[i],
                                st0,
                                warm0,
                            ).reads.to_set(),
                            outcome_model(batch.drop_last()[i], st0, warm0).writes.to_set(),
                        );
                    assert(batch.drop_last()[i] == batch[i]);
                }
            }
        }
        assert(!crate::types::sets_conflict(
            rm.reads.to_set(),
            rm.writes.to_set(),
            prev.def_r,
            prev.def_w,
        )) by {
            if crate::types::sets_intersect(rm.writes.to_set(), prev.def_w) {
                let k = choose|k: Key| rm.writes.to_set().contains(k) && prev.def_w.contains(k);
            }
            if crate::types::sets_intersect(rm.writes.to_set(), prev.def_r) {
                let k = choose|k: Key| rm.writes.to_set().contains(k) && prev.def_r.contains(k);
            }
            if crate::types::sets_intersect(rm.reads.to_set(), prev.def_w) {
                let k = choose|k: Key| rm.reads.to_set().contains(k) && prev.def_w.contains(k);
            }
        }
        let a = spec_round(batch, st0, warm0, acc);
        assert(a.comm_r =~= acc.comm_r.union(models_r_union(batch, st0, warm0)));
        assert(a.comm_w =~= acc.comm_w.union(models_w_union(batch, st0, warm0)));
        // the serial step runs the same transaction from the same storage
        let (mend_p, err_p) = tx_outcome(tx, st0, warm0);
        let (mend_s, err_s) = tx_outcome(tx, sprev.storage, sprev.warm);
        assert(tx_outcome(tx, sprev.storage, sprev.warm) == crate::evm::spec_run(
            tx.metadata.program@,
            crate::evm::tx_start(tx, crate::evm::serial_tx_entry(sprev)),
            u64::MAX as int,
        ));
        assert(spec_serial(batch, sst) == spec_serial_step(sprev, tx)) by {
            assert(batch.drop_last() =~= batch.drop_last());
        }
        assert(prog_max_gas(tx.metadata.program@) <= u64::MAX) by {
            assert(batch[batch.len() - 1] == tx);
        }
        lemma_tx_outcome_state_independent(tx, st0, warm0, sprev.storage, sprev.warm);
        assert(err_p == err_s);
        if err_p is None {
            assert(mend_p.writes == mend_s.writes);
            assert(rm.writes == mend_p.writes);
            lemma_commit_writes_agree(prev.storage, mend_p.storage, mend_s.storage, mend_p.writes);
            assert(a.storage == crate::evm::commit_writes(
                prev.storage,
                mend_p.storage,
                mend_p.writes,
            ));
            assert(spec_serial_step(sprev, tx).storage == crate::evm::commit_writes(
                sprev.storage,
                mend_s.storage,
                mend_s.writes,
            ));
            assert(prev.storage == sprev.storage);
        } else {
            assert(a.storage == prev.storage);
            assert(spec_serial_step(sprev, tx).storage == sprev.storage);
        }
    }
}

/// Serial equivalence for conflict-free blocks: when no two transactions
/// ever conflict on their observed sets and every worst-case gas total
/// fits the counter, parallel execution ends in exactly the storage serial
/// execution ends in, whatever wave cap drives it.
pub proof fn lemma_serial_equivalence_no_conflicts(
    pending: Seq<Transaction>,
    cap: nat,
    pst: ParState,
    sst: crate::evm::SerialState,
)
    requires
        cap >= 1,
        pairwise_never_conflicting(pending),
        gas_budgeted(pending),
        pst.storage == sst.storage,
    ensures
        spec_rounds(pending, cap, pst).storage == spec_serial(pending, sst).storage,
    decreases pending.len(),
{
    if pending.len() == 0 {
    } else {
        let n = min_len(pending.len(), cap) as int;
        let batch = pending.take(n);
        let rest = pending.skip(n);
        assert(gas_budgeted(batch)) by {
            assert forall|i: int|
                0 <= i < batch.len() implies prog_max_gas(
                (#[trigger] batch[i]).metadata.program@,
            ) <= u64::MAX by {
                assert(batch[i] == pending[i]);
            }
        }
        assert forall|i: int, j: int|
            #![trigger batch[i], batch[j]]
            0 <= i < batch.len() && 0 <= j < batch.len() && i != j implies
            !crate::types::sets_conflict(
            outcome_model(batch[i], pst.storage, pst.warm).reads.to_set(),
            outcome_model(batch[i], pst.storage, pst.warm).writes.to_set(),
            outcome_model(batch[j], pst.storage, pst.warm).reads.to_set(),
            outcome_model(batch[j], pst.storage, pst.warm).writes.to_set(),
        ) by {
            assert(batch[i] == pending[i]);
            assert(batch[j] == pending[j]);
            assert(outcome_model(pending[i], pst.storage, pst.warm) == outcome_model(
                batch[i],
                pst.storage,
                pst.warm,
            ));
            assert(outcome_model(pending[j], pst.storage, pst.warm) == outcome_model(
                batch[j],
                pst.storage,
                pst.warm,
            ));
        }
        let acc0 = round_init(pst);
        lemma_round_matches_serial(batch, pst.storage, pst.warm, acc0, sst);
        let acc = spec_round(batch, pst.storage, pst.warm, acc0);
        let st1 = after_round(pst, acc);
        let pend1 = acc.rejected + rest;
        assert(pend1 =~= rest);
        assert(batch + rest =~= pending);
        lemma_serial_append(batch, rest, sst);
        assert(spec_serial(batch + rest, sst) == spec_serial(rest, spec_serial(batch, sst)));
        let smid = spec_serial(batch, sst);
        assert(st1.storage == smid.storage);
        assert(gas_budgeted(rest)) by {
            assert forall|i: int|
                0 <= i < rest.len() implies prog_max_gas(
                (#[trigger] rest[i]).metadata.program@,
            ) <= u64::MAX by {
                assert(rest[i] == pending[n + i]);
            }
        }
        assert(pairwise_never_conflicting(rest)) by {
            assert forall|st2: Map<Key, U256>, warm2: Seq<Key>, i: int, j: int|
                #![trigger outcome_model(rest[i], st2, warm2), outcome_model(rest[j], st2, warm2)]
                0 <= i < rest.len() && 0 <= j < rest.len() && i != j implies
                !crate::types::sets_conflict(
                outcome_model(rest[i], st2, warm2).reads.to_set(),
                outcome_model(rest[i], st2, warm2).writes.to_set(),
                outcome_model(rest[j], st2, warm2).reads.to_set(),
                outcome_model(rest[j], st2, warm2).writes.to_set(),
            ) by {
                assert(rest[i] == pending[n + i]);
                assert(rest[j] == pending[n + j]);
                assert(outcome_model(pending[n + i], st2, warm2) == outcome_model(
                    rest[i],
                    st2,
                    warm2,
                ));
                assert(outcome_model(pending[n + j], st2, warm2) == outcome_model(
                    rest[j],
                    st2,
                    warm2,
                ));
            }
        }
        lemma_serial_equivalence_no_conflicts(rest, cap, st1, smid);
        assert(spec_rounds(pending, cap, pst) == spec_rounds(pend1, cap, st1));
        assert(spec_rounds(pend1, cap, st1) == spec_rounds(rest, cap, st1));
    }
}

/// The block-level reading of conflict-free serial equivalence, from the
/// executors' starting states.
pub proof fn lemma_serial_equivalence_no_conflicts_block(
    txs: Seq<Transaction>,
    cap: nat,
    st0: Map<Key, U256>,
)
    requires
        cap >= 1,
        pairwise_never_conflicting(txs),
        gas_budgeted(txs),
    ensures
        spec_rounds(txs, cap, par_init(st0)).storage == spec_serial(
            txs,
            serial_init(st0),
        ).storage,
{
    lemma_serial_equivalence_no_conflicts(txs, cap, par_init(st0), serial_init(st0));
}

/// What deferral safety asks of an accumulator: every deferred
/// transaction's observed sets sit inside the deferred sets.
pub open spec fn defer_inv(
    acc: crate::parallel::RoundAcc,
    st0: Map<Key, U256>,
    warm0: Seq<Key>,
) -> bool {
    forall|p: int|
        0 <= p < acc.rejected.len() ==> outcome_model(
            #[trigger] acc.rejected[p],
            st0,
            warm0,
        ).reads.to_set().subset_of(acc.def_r) && outcome_model(
            acc.rejected[p],
            st0,
            warm0,
        ).writes.to_set().subset_of(acc.def_w)
}

/// Deferral safety: a transaction committed by a round conflicts with no
/// transaction the round had already deferred, so a deferred transaction
/// never sees a later id committed past it that it conflicts with.
#[verifier::rlimit(100)]
#[verifier::spinoff_prover]
pub proof fn lemma_accepted_after_deferred(
    batch: Seq<Transaction>,
    st0: Map<Key, U256>,
    warm0: Seq<Key>,
    acc: crate::parallel::RoundAcc,
)
    requires
        tx_ids(batch).no_duplicates(),
        defer_inv(acc, st0, warm0),
    ensures
        ({
            let a = spec_round(batch, st0, warm0, acc);
            &&& defer_inv(a, st0, warm0)
            &&& forall|x: u64|
                #[trigger] a.wave.contains(x) ==> acc.wave.contains(x) || tx_ids(
                    batch,
                ).contains(x)
            &&& forall|pc: int, pr: int|
                #![trigger batch[pc], batch[pr]]
                0 <= pr < pc < batch.len() && a.wave.contains(batch[pc].id)
                    && !acc.wave.contains(batch[pc].id) && a.rejected.contains(batch[pr])
                    ==> !crate::types::sets_conflict(
                    outcome_model(batch[pc], st0, warm0).reads.to_set(),
                    outcome_model(batch[pc], st0, warm0).writes.to_set(),
                    outcome_model(batch[pr], st0, warm0).reads.to_set(),
                    outcome_model(batch[pr], st0, warm0).writes.to_set(),
                )
        }),
    decreases batch.len(),
{
    if batch.len() == 0 {
    } else {
        assert(tx_ids(batch.drop_last()) =~= tx_ids(batch).drop_last());
        lemma_accepted_after_deferred(batch.drop_last(), st0, warm0, acc);
        let prev = spec_round(batch.drop_last(), st0, warm0, acc);
        let tx = batch.last();
        let rm = outcome_model(tx, st0, warm0);
        let a = spec_round(batch, st0, warm0, acc);
        assert(batch[batch.len() - 1] == tx);
        if crate::types::sets_conflict(
            rm.reads.to_set(),
            rm.writes.to_set(),
            prev.comm_r,
            prev.comm_w,
        ) || crate::types::sets_conflict(
            rm.reads.to_set(),
            rm.writes.to_set(),
            prev.def_r,
            prev.def_w,
        ) {
            // deferred: its sets join the deferred pool
            assert(a.rejected == prev.rejected.push(tx));
            assert(a.wave == prev.wave);
            assert forall|x: u64| #[trigger] a.wave.contains(x) implies acc.wave.contains(x)
                || tx_ids(batch).contains(x) by {
                if tx_ids(batch.drop_last()).contains(x) {
                    let q = choose|q: int|
                        0 <= q < tx_ids(batch.drop_last()).len() && tx_ids(batch.drop_last())[q]
                            == x;
                    assert(tx_ids(batch)[q] == x);
                }
            }
            assert(defer_inv(a, st0, warm0)) by {
                assert forall|p: int|
                    0 <= p < a.rejected.len() implies outcome_model(
                    #[trigger] a.rejected[p],
                    st0,
                    warm0,
                ).reads.to_set().subset_of(a.def_r) && outcome_model(
                    a.rejected[p],
                    st0,
                    warm0,
                ).writes.to_set().subset_of(a.def_w) by {
                    if p < prev.rejected.len() {
                        assert(a.rejected[p] == prev.rejected[p]);
                    } else {
                        assert(a.rejected[p] == tx);
                    }
                }
            }
            assert forall|pc: int, pr: int|
                #![trigger batch[pc], batch[pr]]
                0 <= pr < pc < batch.len() && a.wave.contains(batch[pc].id)
                    && !acc.wave.contains(batch[pc].id) && a.rejected.contains(batch[pr]) implies
                !crate::types::sets_conflict(
                outcome_model(batch[pc], st0, warm0).reads.to_set(),
                outcome_model(batch[pc], st0, warm0).writes.to_set(),
                outcome_model(batch[pr], st0, warm0).reads.to_set(),
                outcome_model(batch[pr], st0, warm0).writes.to_set(),
            ) by {
                assert(pc < batch.len() - 1) by {
                    if pc == batch.len() - 1 {
                        // the last transaction was deferred, so its id in
                        // the wave would need a second batch slot with the
                        // same id, against uniqueness
                        assert(prev.wave.contains(tx.id));
                        assert(acc.wave.contains(tx.id) || tx_ids(batch.drop_last()).contains(
                            tx.id,
                        ));
                        if tx_ids(batch.drop_last()).contains(tx.id) {
                            let q = choose|q: int|
                                0 <= q < tx_ids(batch.drop_last()).len() && tx_ids(
                                    batch.drop_last(),
                                )[q] == tx.id;
                            assert(tx_ids(batch)[q] == tx.id);
                            assert(tx_ids(batch)[batch.len() - 1] == tx.id);
                        }
                    }
                }
                assert(batch.drop_last()[pc] == batch[pc]);
                assert(batch.drop_last()[pr] == batch[pr]);
                assert(prev.rejected.contains(batch[pr])) by {
                    let q = choose|q: int| 0 <= q < a.rejected.len() && a.rejected[q] == batch[pr];
                    if q < prev.rejected.len() {
                        assert(prev.rejected[q] == batch[pr]);
                    } else {
                        // the newly deferred one is the last transaction,
                        // which has a different id
                        assert(a.rejected[q] == tx);
                        assert(tx_ids(batch)[pr] == batch[pr].id);
                        assert(tx_ids(batch)[batch.len() - 1] == tx.id);
                    }
                }
            }
        } else {
            // committed: it conflicts with nothing deferred so far
            assert(a.rejected == prev.rejected);
            assert(a.wave == prev.wave.push(tx.id));
            assert forall|x: u64| #[trigger] a.wave.contains(x) implies acc.wave.contains(x)
                || tx_ids(batch).contains(x) by {
                let q = choose|q: int| 0 <= q < a.wave.len() && a.wave[q] == x;
                if q < prev.wave.len() {
                    assert(prev.wave[q] == x);
                    assert(prev.wave.contains(x));
                    if tx_ids(batch.drop_last()).contains(x) {
                        let q2 = choose|q2: int|
                            0 <= q2 < tx_ids(batch.drop_last()).len() && tx_ids(
                                batch.drop_last(),
                            )[q2] == x;
                        assert(tx_ids(batch)[q2] == x);
                    }
                } else {
                    assert(x == tx.id);
                    assert(tx_ids(batch)[batch.len() - 1] == x);
                }
            }
            assert forall|pc: int, pr: int|
                #![trigger batch[pc], batch[pr]]
                0 <= pr < pc < batch.len() && a.wave.contains(batch[pc].id)
                    && !acc.wave.contains(batch[pc].id) && a.rejected.contains(batch[pr]) implies
                !crate::types::sets_conflict(
                outcome_model(batch[pc], st0, warm0).reads.to_set(),
                outcome_model(batch[pc], st0, warm0).writes.to_set(),
                outcome_model(batch[pr], st0, warm0).reads.to_set(),
                outcome_model(batch[pr], st0, warm0).writes.to_set(),
            ) by {
                if pc == batch.len() - 1 {
                    assert(batch.drop_last()[pr] == batch[pr]);
                    let rmr = outcome_model(batch[pr], st0, warm0);
                    assert(rmr.reads.to_set().subset_of(prev.def_r));
                    assert(rmr.writes.to_set().subset_of(prev.def_w));
                    assert(!crate::types::sets_conflict(
                        rm.reads.to_set(),
                        rm.writes.to_set(),
                        rmr.reads.to_set(),
                        rmr.writes.to_set(),
                    )) by {
                        if crate::types::sets_conflict(
                            rm.reads.to_set(),
                            rm.writes.to_set(),
                            rmr.reads.to_set(),
                            rmr.writes.to_set(),
                        ) {
                            lemma_conflict_union(
                                rm.reads.to_set(),
                                rm.writes.to_set(),
                                rmr.reads.to_set(),
                                rmr.writes.to_set(),
                                prev.def_r,
                                prev.def_w,
                            );
                            assert(rmr.reads.to_set().union(prev.def_r) =~= prev.def_r);
                            assert(rmr.writes.to_set().union(prev.def_w) =~= prev.def_w);
                        }
                    }
                    assert(outcome_model(batch[pc], st0, warm0) == rm);
                } else {
                    assert(batch.drop_last()[pc] == batch[pc]);
                    assert(batch.drop_last()[pr] == batch[pr]);
                    assert(prev.wave.contains(batch[pc].id)) by {
                        let q = choose|q: int| 0 <= q < a.wave.len() && a.wave[q] == batch[pc].id;
                        if q < prev.wave.len() {
                            assert(prev.wave[q] == batch[pc].id);
                        } else {
                            assert(a.wave[q] == tx.id);
                            assert(tx_ids(batch)[pc] == batch[pc].id);
                            assert(tx_ids(batch)[batch.len() - 1] == tx.id);
                        }
                    }
                }
            }
        }
    }
}

} // verus!
