use pevm::AccessListBuilder;
use pevm::AccessOracle;
use pevm::Block;
use pevm::ExecutionContext;
use pevm::KVStore;
use pevm::Key;
use pevm::MIScheduler;
use pevm::MemoryStore;
use pevm::MicroOp;
use pevm::ParallelExecutor;
use pevm::Transaction;
use pevm::TransactionMetadata;
use pevm::U256;
use pevm::execute_serial;
use pevm::execute_transaction;
use pevm::verify_states;

fn tx_with_program(id: u64, program: Vec<MicroOp>) -> Transaction {
    Transaction {
        id,
        reads: vec![],
        writes: vec![],
        gas_hint: 100000,
        metadata: TransactionMetadata {
            program,
            access_list: vec![],
            blob_size: 0,
            nonce: id,
            from: [0u8; 20],
        },
    }
}

fn key_n(n: u8) -> Key {
    Key::new([n; 20], [n; 32])
}

fn run_parallel(block: &Block, max_wave: usize) -> pevm::ParallelExecutionResult {
    let scheduler = MIScheduler::new(max_wave);
    let builder = AccessListBuilder::with_heuristic();
    let mut executor = ParallelExecutor::new(scheduler, builder, MemoryStore::new());
    executor.execute_parallel(block)
}

#[test]
fn three_disjoint_writers_form_one_wave() {
    let block = Block::new(
        1,
        vec![
            tx_with_program(0, vec![MicroOp::SStore(key_n(1), U256::from_u64(100))]),
            tx_with_program(1, vec![MicroOp::SStore(key_n(2), U256::from_u64(200))]),
            tx_with_program(2, vec![MicroOp::SStore(key_n(3), U256::from_u64(300))]),
        ],
    );
    let out = run_parallel(&block, 10000);
    assert_eq!(out.waves, vec![vec![0, 1, 2]]);
    assert_eq!(out.storage.get(&key_n(1)), U256::from_u64(100));
    assert_eq!(out.storage.get(&key_n(2)), U256::from_u64(200));
    assert_eq!(out.storage.get(&key_n(3)), U256::from_u64(300));
}

#[test]
fn same_key_writers_serialize_and_last_wins() {
    let block = Block::new(
        1,
        vec![
            tx_with_program(0, vec![MicroOp::SStore(key_n(1), U256::from_u64(1))]),
            tx_with_program(1, vec![MicroOp::SStore(key_n(1), U256::from_u64(2))]),
            tx_with_program(2, vec![MicroOp::SStore(key_n(1), U256::from_u64(3))]),
        ],
    );
    let out = run_parallel(&block, 10000);
    assert_eq!(out.waves, vec![vec![0], vec![1], vec![2]]);
    assert_eq!(out.storage.get(&key_n(1)), U256::from_u64(3));
}

#[test]
fn independent_reader_joins_writer_wave() {
    let block = Block::new(
        1,
        vec![
            tx_with_program(
                0,
                vec![MicroOp::SLoad(key_n(1)), MicroOp::SStore(key_n(1), U256::from_u64(10))],
            ),
            tx_with_program(1, vec![MicroOp::SLoad(key_n(2))]),
        ],
    );
    let out = run_parallel(&block, 10000);
    assert_eq!(out.waves, vec![vec![0, 1]]);
    assert_eq!(out.storage.get(&key_n(1)), U256::from_u64(10));
}

#[test]
fn dependent_reader_waits_for_writer() {
    let block = Block::new(
        1,
        vec![
            tx_with_program(0, vec![MicroOp::SStore(key_n(1), U256::from_u64(5))]),
            tx_with_program(
                1,
                vec![MicroOp::SLoad(key_n(1)), MicroOp::SStore(key_n(2), U256::from_u64(9))],
            ),
        ],
    );
    let out = run_parallel(&block, 10000);
    assert_eq!(out.waves, vec![vec![0], vec![1]]);
    assert_eq!(out.storage.get(&key_n(1)), U256::from_u64(5));
    assert_eq!(out.storage.get(&key_n(2)), U256::from_u64(9));
}

#[test]
fn wave_cap_splits_disjoint_writers() {
    let txs: Vec<Transaction> = (0..10u64)
        .map(|i| tx_with_program(i, vec![MicroOp::SStore(key_n(i as u8), U256::from_u64(i))]))
        .collect();
    let block = Block::new(1, txs);
    let out = run_parallel(&block, 4);
    let sizes: Vec<usize> = out.waves.iter().map(|w| w.len()).collect();
    assert_eq!(sizes, vec![4, 4, 2]);
    for w in &out.waves {
        let mut sorted = w.clone();
        sorted.sort();
        assert_eq!(&sorted, w);
    }
    for i in 0..10u64 {
        assert_eq!(out.storage.get(&key_n(i as u8)), U256::from_u64(i));
    }
}

#[test]
fn runtime_conflict_requeues_reader() {
    // the reader of a written key is re-queued past the writer even when
    // the two land in one proposed wave
    let block = Block::new(
        1,
        vec![
            tx_with_program(0, vec![MicroOp::SStore(key_n(1), U256::from_u64(77))]),
            tx_with_program(1, vec![MicroOp::SLoad(key_n(1))]),
        ],
    );
    let out = run_parallel(&block, 10000);
    assert_eq!(out.waves, vec![vec![0], vec![1]]);
    assert_eq!(out.storage.get(&key_n(1)), U256::from_u64(77));
}

#[test]
fn parallel_matches_serial_storage() {
    let blocks = vec![
        Block::new(
            1,
            vec![
                tx_with_program(0, vec![MicroOp::SStore(key_n(1), U256::from_u64(1))]),
                tx_with_program(
                    1,
                    vec![MicroOp::SLoad(key_n(1)), MicroOp::SStore(key_n(2), U256::from_u64(2))],
                ),
                tx_with_program(2, vec![MicroOp::SStore(key_n(1), U256::from_u64(9))]),
                tx_with_program(3, vec![MicroOp::SStore(key_n(3), U256::from_u64(4))]),
            ],
        ),
        Block::new(
            2,
            vec![
                tx_with_program(0, vec![MicroOp::SStore(key_n(5), U256::from_u64(50))]),
                tx_with_program(1, vec![MicroOp::SStore(key_n(5), U256::from_u64(51))]),
                tx_with_program(2, vec![MicroOp::SStore(key_n(6), U256::from_u64(52))]),
            ],
        ),
    ];
    for block in &blocks {
        let serial = execute_serial(block, MemoryStore::new());
        let parallel = run_parallel(block, 10000);
        assert!(verify_states(&serial.storage, &parallel.storage));
    }
}

#[test]
fn results_come_back_in_block_order() {
    let block = Block::new(
        1,
        vec![
            tx_with_program(3, vec![MicroOp::SStore(key_n(1), U256::from_u64(1))]),
            tx_with_program(7, vec![MicroOp::SStore(key_n(1), U256::from_u64(2))]),
            tx_with_program(9, vec![MicroOp::NoOp]),
        ],
    );
    let out = run_parallel(&block, 10000);
    assert_eq!(out.results.len(), 3);
    assert_eq!(out.results[0].tx_id, 3);
    assert_eq!(out.results[1].tx_id, 7);
    assert_eq!(out.results[2].tx_id, 9);
}

#[test]
fn two_runs_agree_exactly() {
    let block = Block::new(
        1,
        vec![
            tx_with_program(0, vec![MicroOp::SStore(key_n(1), U256::from_u64(1))]),
            tx_with_program(1, vec![MicroOp::SStore(key_n(1), U256::from_u64(2))]),
            tx_with_program(2, vec![MicroOp::SStore(key_n(4), U256::from_u64(3))]),
        ],
    );
    let a = run_parallel(&block, 2);
    let b = run_parallel(&block, 2);
    assert_eq!(a.waves, b.waves);
    assert_eq!(a.total_gas, b.total_gas);
    assert!(verify_states(&a.storage, &b.storage));
    assert_eq!(a.results.len(), b.results.len());
    for (x, y) in a.results.iter().zip(b.results.iter()) {
        assert_eq!(x.tx_id, y.tx_id);
        assert_eq!(x.success, y.success);
        assert_eq!(x.gas_used, y.gas_used);
    }
}

#[test]
fn stack_underflow_fails_without_commit() {
    // with no SLoad before it, the Add has nothing to pop
    let block = Block::new(
        1,
        vec![tx_with_program(0, vec![MicroOp::Add(U256::from_u64(1))])],
    );
    let out = run_parallel(&block, 10000);
    assert!(!out.results[0].success);
    assert_eq!(out.results[0].error.as_deref(), Some("Stack underflow in ADD"));
    assert_eq!(out.results[0].gas_used, 0);
    // a failed transaction still occupies a wave slot
    assert_eq!(out.waves, vec![vec![0]]);

    let block_sub = Block::new(
        1,
        vec![tx_with_program(0, vec![MicroOp::Sub(U256::from_u64(1))])],
    );
    let out_sub = run_parallel(&block_sub, 10000);
    assert_eq!(out_sub.results[0].error.as_deref(), Some("Stack underflow in SUB"));
}

#[test]
fn out_of_gas_reports_error() {
    let mut ctx = ExecutionContext::with_gas_limit(MemoryStore::new(), 10);
    let tx = tx_with_program(0, vec![MicroOp::SStore(key_n(1), U256::from_u64(1))]);
    let res = execute_transaction(&tx, &mut ctx);
    assert!(!res.success);
    assert_eq!(res.error.as_deref(), Some("Out of gas: used 20000 > limit 10"));
}

#[test]
fn keccak_pushes_a_digest() {
    let mut ctx = ExecutionContext::new(MemoryStore::new());
    let data = vec![0u8; 32];
    let tx = tx_with_program(0, vec![MicroOp::Keccak(data.clone())]);
    let res = execute_transaction(&tx, &mut ctx);
    assert!(res.success);
    assert_eq!(ctx.stack.len(), 1);
    // the digest is not the input and not zero
    assert_ne!(ctx.stack[0], U256::zero());
    assert_ne!(ctx.stack[0].0.to_vec(), data);
}

#[test]
fn hex_encode_renders_two_digits_per_byte() {
    assert_eq!(pevm::hex::encode(&vec![0u8, 1, 255]), "0001ff");
    assert_eq!(pevm::hex::encode(&vec![]), "");
    assert_eq!(pevm::hex::encode(&vec![0xde, 0xad, 0xbe, 0xef]), "deadbeef");
}

#[test]
fn u256_wraps_around() {
    let zero = U256::zero();
    let one = U256::from_u64(1);
    let max = zero.sub(&one);
    assert_eq!(max.to_u64(), None);
    assert!(max.add(&one).is_zero());
}

#[test]
fn verify_states_spots_differences() {
    let mut a = MemoryStore::new();
    let mut b = MemoryStore::new();
    a.set(key_n(1), U256::from_u64(1));
    b.set(key_n(1), U256::from_u64(1));
    assert!(verify_states(&a, &b));
    b.set(key_n(2), U256::from_u64(2));
    assert!(!verify_states(&a, &b));
    a.set(key_n(2), U256::from_u64(3));
    assert!(!verify_states(&a, &b));
    a.set(key_n(2), U256::from_u64(2));
    assert!(verify_states(&a, &b));
}

#[test]
fn estimate_is_idempotent() {
    let oracle = pevm::HeuristicOracle::new();
    let tx = tx_with_program(
        4,
        vec![MicroOp::SLoad(key_n(1)), MicroOp::SStore(key_n(2), U256::from_u64(1))],
    );
    let a = oracle.estimate_access_sets(&tx);
    let b = oracle.estimate_access_sets(&tx);
    assert_eq!(a.reads, b.reads);
    assert_eq!(a.writes, b.writes);
}

#[test]
fn conflict_pair_counts_are_bounded() {
    let collector = pevm::MetricsCollector::new();
    let block = Block::new(
        1,
        vec![
            tx_with_program(0, vec![MicroOp::SStore(key_n(1), U256::from_u64(1))]),
            tx_with_program(1, vec![MicroOp::SStore(key_n(1), U256::from_u64(2))]),
            tx_with_program(2, vec![MicroOp::SStore(key_n(2), U256::from_u64(3))]),
        ],
    );
    let out = run_parallel(&block, 10000);
    let (conflicting, pairs) = collector.conflict_pair_counts(&out.results);
    assert_eq!(pairs, 3);
    assert_eq!(conflicting, 1);
}
