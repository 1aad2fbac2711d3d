use pevm::evm::ADD_COST;
use pevm::evm::COLD_SLOAD_COST;
use pevm::evm::KECCAK_BASE_COST;
use pevm::evm::KECCAK_WORD_COST;
use pevm::evm::WARM_SLOAD_COST;
use pevm::AccessListBuilder;
use pevm::AccessOracle;
use pevm::AccessSets;
use pevm::Block;
use pevm::ConflictGraph;
use pevm::ExecutionContext;
use pevm::HeuristicOracle;
use pevm::KVStore;
use pevm::Key;
use pevm::MIScheduler;
use pevm::MemoryStore;
use pevm::MicroOp;
use pevm::Transaction;
use pevm::TransactionMetadata;
use pevm::U256;
use pevm::calculate_keccak_gas;
use pevm::calculate_sload_gas;
use pevm::execute_op;
use pevm::execute_serial;

fn create_test_tx(id: u64, reads: Vec<Key>, writes: Vec<Key>) -> Transaction {
    Transaction {
        id,
        reads,
        writes,
        gas_hint: 100000,
        metadata: TransactionMetadata {
            program: vec![],
            access_list: vec![],
            blob_size: 0,
            nonce: 0,
            from: [0u8; 20],
        },
    }
}

fn create_test_tx_prog(
    id: u64,
    reads: Vec<Key>,
    writes: Vec<Key>,
    program: Vec<MicroOp>,
) -> Transaction {
    Transaction {
        id,
        reads,
        writes,
        gas_hint: 100000,
        metadata: TransactionMetadata {
            program,
            access_list: vec![],
            blob_size: 0,
            nonce: 0,
            from: [0u8; 20],
        },
    }
}

#[test]
fn test_gas_calculations() {
    assert_eq!(calculate_sload_gas(true), COLD_SLOAD_COST);
    assert_eq!(calculate_sload_gas(false), WARM_SLOAD_COST);
    assert_eq!(calculate_keccak_gas(32), KECCAK_BASE_COST + KECCAK_WORD_COST);
}

#[test]
fn test_types() {
    let a = U256::from_u64(100);
    let b = U256::from_u64(50);
    assert_eq!(a.add(&b).to_u64(), Some(150));

    let mut set1 = AccessSets::new();
    set1.add_write(Key::new([1u8; 20], [1u8; 32]));
    let mut set2 = AccessSets::new();
    set2.add_read(Key::new([1u8; 20], [1u8; 32]));
    assert!(set1.has_conflict_with(&set2));
}

#[test]
fn test_memory_store_operations() {
    let mut store = MemoryStore::new();
    let key = Key::new([1u8; 20], [1u8; 32]);

    store.set(key, U256::from_u64(100));
    assert_eq!(store.get(&key), U256::from_u64(100));
    assert_eq!(store.len(), 1);
}

#[test]
fn test_kv_store_basic_ops() {
    let mut store = MemoryStore::new();
    let key = Key::new([1u8; 20], [1u8; 32]);
    let value = U256::from_u64(100);

    assert_eq!(store.get(&key), U256::zero());

    store.set(key, value);
    assert_eq!(store.get(&key), value);
    assert!(store.contains(&key));

    assert_eq!(store.len(), 1);
}

#[test]
fn test_context_creation() {
    let storage = MemoryStore::new();
    let ctx = ExecutionContext::new(storage);

    assert_eq!(ctx.gas_used, 0);
    assert!(ctx.stack.is_empty());
    assert!(ctx.warm_keys.is_empty());
}

#[test]
fn test_warm_up() {
    let storage = MemoryStore::new();
    let mut ctx = ExecutionContext::new(storage);

    let key = Key::new([1u8; 20], [1u8; 32]);
    assert!(!ctx.is_warm(&key));

    ctx.warm_up(key);
    assert!(ctx.is_warm(&key));
}

#[test]
fn test_gas_limit() {
    let storage = MemoryStore::new();
    let mut ctx = ExecutionContext::with_gas_limit(storage, 1000);

    assert!(ctx.consume_gas(500).is_ok());
    assert_eq!(ctx.gas_used, 500);

    assert!(ctx.consume_gas(400).is_ok());
    assert_eq!(ctx.gas_used, 900);

    // This should fail
    assert!(ctx.consume_gas(200).is_err());
}

#[test]
fn test_reset() {
    let storage = MemoryStore::new();
    let mut ctx = ExecutionContext::new(storage);

    let key = Key::new([1u8; 20], [1u8; 32]);
    ctx.warm_up(key);
    ctx.consume_gas(100).unwrap();
    ctx.stack.push(U256::from_u64(42));

    ctx.reset_for_new_tx(true);

    assert_eq!(ctx.gas_used, 0);
    assert!(ctx.stack.is_empty());
    assert!(ctx.is_warm(&key)); // Still warm

    ctx.reset_for_new_tx(false);
    assert!(!ctx.is_warm(&key)); // No longer warm
}

#[test]
fn test_context_operations() {
    let mut ctx = ExecutionContext::with_gas_limit(MemoryStore::new(), 1000);
    let key = Key::new([1u8; 20], [1u8; 32]);
    ctx.warm_up(key);
    assert!(ctx.is_warm(&key));
    assert!(ctx.consume_gas(500).is_ok());
    assert!(ctx.consume_gas(600).is_err());
}

#[test]
fn test_heuristic_oracle_declared_accesses() {
    let oracle = HeuristicOracle::new();
    let key1 = Key::new([1u8; 20], [1u8; 32]);
    let key2 = Key::new([2u8; 20], [2u8; 32]);

    let tx = create_test_tx(1, vec![key1], vec![key2]);

    let sets = oracle.estimate_access_sets(&tx);

    assert!(sets.reads.contains(&key1));
    assert!(sets.writes.contains(&key2));
}

#[test]
fn test_heuristic_oracle_program_analysis() {
    let oracle = HeuristicOracle::new();
    let key1 = Key::new([1u8; 20], [1u8; 32]);
    let key2 = Key::new([2u8; 20], [2u8; 32]);

    let tx = create_test_tx_prog(
        1,
        vec![],
        vec![],
        vec![MicroOp::SLoad(key1), MicroOp::SStore(key2, U256::zero())],
    );

    let sets = oracle.estimate_access_sets(&tx);

    assert!(sets.reads.contains(&key1));
    assert!(sets.writes.contains(&key2));
}

#[test]
fn test_conflict_graph_construction() {
    let mut graph = ConflictGraph::new();

    let mut sets1 = AccessSets::new();
    sets1.add_read(Key::new([1u8; 20], [1u8; 32]));

    let mut sets2 = AccessSets::new();
    sets2.add_write(Key::new([1u8; 20], [1u8; 32]));

    graph.add_node(1, sets1);
    graph.add_node(2, sets2);
    graph.add_edge(1, 2);

    assert_eq!(graph.node_count(), 2);
    assert_eq!(graph.edge_count(), 1);

    let neighbors = graph.get_neighbors(1);
    assert!(neighbors.contains(&2));
}

#[test]
fn test_conflict_graph_build() {
    let key = Key::new([1u8; 20], [1u8; 32]);

    let mut sets1 = AccessSets::new();
    sets1.add_read(key);

    let mut sets2 = AccessSets::new();
    sets2.add_write(key);

    let mut sets3 = AccessSets::new();
    sets3.add_read(Key::new([2u8; 20], [2u8; 32]));

    let transactions = vec![(1, sets1), (2, sets2), (3, sets3)];

    let graph = ConflictGraph::build(&transactions);

    assert_eq!(graph.node_count(), 3);
    // Tx 1 and 2 should conflict (RW conflict)
    assert_eq!(graph.edge_count(), 1);
    assert!(graph.get_neighbors(1).contains(&2));
    assert!(graph.get_neighbors(2).contains(&1));
}

fn conflict_rate_of(graph: &ConflictGraph) -> f64 {
    let (deg, pairs) = graph.conflict_rate_parts();
    if pairs == 0 {
        0.0
    } else {
        deg as f64 / pairs as f64
    }
}

#[test]
fn test_conflict_rate() {
    let key = Key::new([1u8; 20], [1u8; 32]);

    // All transactions conflict with each other
    let mut sets1 = AccessSets::new();
    sets1.add_write(key);

    let mut sets2 = AccessSets::new();
    sets2.add_write(key);

    let mut sets3 = AccessSets::new();
    sets3.add_write(key);

    let transactions = vec![(1, sets1), (2, sets2), (3, sets3)];

    let graph = ConflictGraph::build(&transactions);

    // All possible pairs conflict: 3 edges out of 3 possible
    assert!((conflict_rate_of(&graph) - 1.0).abs() < 0.01);
}

#[test]
fn test_no_conflicts() {
    // Three transactions with different keys
    let mut sets1 = AccessSets::new();
    sets1.add_write(Key::new([1u8; 20], [1u8; 32]));

    let mut sets2 = AccessSets::new();
    sets2.add_write(Key::new([2u8; 20], [2u8; 32]));

    let mut sets3 = AccessSets::new();
    sets3.add_write(Key::new([3u8; 20], [3u8; 32]));

    let transactions = vec![(1, sets1), (2, sets2), (3, sets3)];

    let graph = ConflictGraph::build(&transactions);

    assert_eq!(graph.edge_count(), 0);
    assert_eq!(conflict_rate_of(&graph), 0.0);
}

#[test]
fn test_no_conflicts_single_wave() {
    // Three transactions with different keys
    let tx1 = create_test_tx(1, vec![], vec![Key::new([1u8; 20], [1u8; 32])]);
    let tx2 = create_test_tx(2, vec![], vec![Key::new([2u8; 20], [2u8; 32])]);
    let tx3 = create_test_tx(3, vec![], vec![Key::new([3u8; 20], [3u8; 32])]);

    let block = Block::new(1, vec![tx1, tx2, tx3]);

    let mut access_builder = AccessListBuilder::with_heuristic();
    for tx in &block.transactions {
        access_builder.estimate_before_execution(tx);
    }

    let scheduler = MIScheduler::new(1000);
    let waves = scheduler.schedule(&block, &access_builder);

    // All transactions should be in one wave (no conflicts)
    assert_eq!(waves.len(), 1);
    assert_eq!(waves[0].len(), 3);
}

#[test]
fn test_full_conflicts_serial() {
    // Three transactions all accessing the same key
    let key = Key::new([1u8; 20], [1u8; 32]);

    let tx1 = create_test_tx(1, vec![], vec![key]);
    let tx2 = create_test_tx(2, vec![], vec![key]);
    let tx3 = create_test_tx(3, vec![], vec![key]);

    let block = Block::new(1, vec![tx1, tx2, tx3]);

    let mut access_builder = AccessListBuilder::with_heuristic();
    for tx in &block.transactions {
        access_builder.estimate_before_execution(tx);
    }

    let scheduler = MIScheduler::new(1000);
    let waves = scheduler.schedule(&block, &access_builder);

    // All transactions should be serialized (full conflicts)
    assert_eq!(waves.len(), 3);
    for wave in &waves {
        assert_eq!(wave.len(), 1);
    }
}

#[test]
fn test_partial_conflicts() {
    let key1 = Key::new([1u8; 20], [1u8; 32]);
    let key2 = Key::new([2u8; 20], [2u8; 32]);

    // tx1 and tx2 conflict, tx3 is independent
    let tx1 = create_test_tx(1, vec![key1], vec![]);
    let tx2 = create_test_tx(2, vec![], vec![key1]); // Conflicts with tx1
    let tx3 = create_test_tx(3, vec![], vec![key2]); // Independent

    let block = Block::new(1, vec![tx1, tx2, tx3]);

    let mut access_builder = AccessListBuilder::with_heuristic();
    for tx in &block.transactions {
        access_builder.estimate_before_execution(tx);
    }

    let scheduler = MIScheduler::new(1000);
    let waves = scheduler.schedule(&block, &access_builder);

    // Should have 2 waves: {tx1, tx3} and {tx2}
    // or {tx2, tx3} and {tx1}
    assert_eq!(waves.len(), 2);

    let total_txs: usize = waves.iter().map(|w| w.len()).sum();
    assert_eq!(total_txs, 3);
}

#[test]
fn test_max_wave_size_limit() {
    // Create 10 independent transactions
    let transactions: Vec<Transaction> = (0..10)
        .map(|i| {
            let key = Key::new([i as u8; 20], [i as u8; 32]);
            create_test_tx(i, vec![], vec![key])
        })
        .collect();

    let block = Block::new(1, transactions);

    let mut access_builder = AccessListBuilder::with_heuristic();
    for tx in &block.transactions {
        access_builder.estimate_before_execution(tx);
    }

    // Set max wave size to 5
    let scheduler = MIScheduler::new(5);
    let waves = scheduler.schedule(&block, &access_builder);

    // Should have at least 2 waves due to max size limit
    assert!(waves.len() >= 2);

    // No wave should exceed max size
    for wave in &waves {
        assert!(wave.len() <= 5);
    }
}

#[test]
fn test_find_mis_algorithm() {
    let key = Key::new([1u8; 20], [1u8; 32]);

    let mut sets1 = AccessSets::new();
    sets1.add_read(key);

    let mut sets2 = AccessSets::new();
    sets2.add_write(key);

    let mut sets3 = AccessSets::new();
    sets3.add_read(Key::new([2u8; 20], [2u8; 32]));

    let transactions = vec![(1, sets1), (2, sets2), (3, sets3)];

    let graph = ConflictGraph::build(&transactions);
    let available: Vec<u64> = vec![1, 2, 3];

    let scheduler = MIScheduler::new(1000);
    let mis = scheduler.find_mis(&graph, &available);

    // MIS should include tx1 and tx3 (they don't conflict)
    // or tx2 and tx3
    assert!(mis.len() >= 2);

    // Verify it's actually independent
    for &tx1_id in &mis {
        for &tx2_id in &mis {
            if tx1_id != tx2_id {
                let neighbors1 = graph.get_neighbors(tx1_id);
                assert!(!neighbors1.contains(&tx2_id));
            }
        }
    }
}

#[test]
fn test_block_execution() {
    let key = Key::new([1u8; 20], [1u8; 32]);
    let tx1 = create_test_tx_prog(
        1,
        vec![],
        vec![],
        vec![MicroOp::SStore(key, U256::from_u64(100))],
    );
    let block = Block::new(1, vec![tx1]);
    let result = execute_serial(&block, MemoryStore::new());
    assert_eq!(result.results.len(), 1);
    assert_eq!(result.storage.get(&key), U256::from_u64(100));
}

#[test]
fn test_ops() {
    let mut ctx = ExecutionContext::new(MemoryStore::new());
    let key = Key::new([1u8; 20], [1u8; 32]);
    execute_op(&MicroOp::SStore(key, U256::from_u64(42)), &mut ctx).unwrap();
    assert_eq!(ctx.storage.get(&key), U256::from_u64(42));
}
