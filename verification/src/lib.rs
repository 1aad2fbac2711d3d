pub mod evm;
pub mod graph;
pub mod hex;
pub mod idmap;
pub mod keymap;
pub mod laws;
pub mod log;
pub mod metrics;
pub mod mis;
pub mod oracle;
pub mod parallel;
pub mod storage;
pub mod types;

pub use evm::ExecutionContext;
pub use evm::SerialExecutionResult;
pub use evm::calculate_keccak_gas;
pub use evm::calculate_sload_gas;
pub use evm::calculate_sstore_gas;
pub use evm::execute_op;
pub use evm::execute_serial;
pub use evm::execute_transaction;
pub use graph::ConflictGraph;
pub use log::LogLevel;
pub use metrics::MetricsCollector;
pub use mis::MIScheduler;
pub use oracle::AccessListBuilder;
pub use oracle::AccessOracle;
pub use oracle::HeuristicOracle;
pub use oracle::PostExecutionOracle;
pub use parallel::ParallelExecutionResult;
pub use parallel::ParallelExecutor;
pub use storage::KVStore;
pub use storage::MemoryStore;
pub use storage::verify_states;
pub use types::AccessSets;
pub use types::Block;
pub use types::ExecutionResult;
pub use types::Key;
pub use types::MicroOp;
pub use types::Transaction;
pub use types::TransactionMetadata;
pub use types::U256;
