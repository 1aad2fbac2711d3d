//! The micro-op interpreter: gas accounting, execution contexts, and the
//! one-transaction and serial block executors, together with their
//! mathematical model.
use vstd::prelude::*;
use crate::storage::KVStore;
use crate::types::AccessSets;
use crate::types::ExecutionResult;
use crate::types::Key;
use crate::types::MicroOp;
use crate::types::Transaction;
use crate::types::Block;
use crate::types::U256;
use crate::types::be_nat;
use crate::types::key_add;
use crate::types::key_seq_union;

verus! {

pub const COLD_SLOAD_COST: u64 = 2100;

pub const WARM_SLOAD_COST: u64 = 100;

pub const COLD_SSTORE_COST: u64 = 20000;

pub const WARM_SSTORE_COST: u64 = 2900;

pub const SSTORE_RESET_COST: u64 = 5000;

pub const SSTORE_SET_COST: u64 = 20000;

pub const ADD_COST: u64 = 3;

pub const SUB_COST: u64 = 3;

pub const KECCAK_BASE_COST: u64 = 30;

pub const KECCAK_WORD_COST: u64 = 6;

pub const NOOP_COST: u64 = 1;

/// The gas charged for a storage read.
pub open spec fn spec_sload_gas(is_cold: bool) -> int {
    if is_cold {
        COLD_SLOAD_COST as int
    } else {
        WARM_SLOAD_COST as int
    }
}

/// The gas charged for a storage write, by warmth and zeroness.
pub open spec fn spec_sstore_gas(is_cold: bool, cur_zero: bool, new_zero: bool) -> int {
    if is_cold {
        if new_zero {
            SSTORE_RESET_COST as int
        } else {
            COLD_SSTORE_COST as int
        }
    } else {
        if cur_zero && !new_zero {
            SSTORE_SET_COST as int
        } else if !cur_zero && new_zero {
            SSTORE_RESET_COST as int
        } else {
            WARM_SSTORE_COST as int
        }
    }
}

/// The gas charged for hashing, by 32-byte words of input.
pub open spec fn spec_keccak_gas(data_len: nat) -> int {
    KECCAK_BASE_COST + KECCAK_WORD_COST * ((data_len + 31) / 32)
}

pub fn calculate_sload_gas(is_cold: bool) -> (r: u64)
    ensures
        r == spec_sload_gas(is_cold),
{
    if is_cold {
        COLD_SLOAD_COST
    } else {
        WARM_SLOAD_COST
    }
}

pub fn calculate_sstore_gas(is_cold: bool, current: U256, new_value: U256) -> (r: u64)
    ensures
        r == spec_sstore_gas(is_cold, current.as_nat() == 0, new_value.as_nat() == 0),
{
    let is_zero = current.is_zero();
    let new_is_zero = new_value.is_zero();
    if is_cold {
        if new_is_zero {
            SSTORE_RESET_COST
        } else {
            COLD_SSTORE_COST
        }
    } else {
        if is_zero && !new_is_zero {
            SSTORE_SET_COST
        } else if !is_zero && new_is_zero {
            SSTORE_RESET_COST
        } else {
            WARM_SSTORE_COST
        }
    }
}

pub fn calculate_keccak_gas(data_len: usize) -> (r: u64)
    ensures
        r == spec_keccak_gas(data_len as nat),
{
    let words: u64 = data_len as u64 / 32 + if data_len % 32 != 0 {
        1
    } else {
        0
    };
    proof {
        vstd::arithmetic::div_mod::lemma_fundamental_div_mod(data_len as int, 32);
        if data_len % 32 == 0 {
            vstd::arithmetic::div_mod::lemma_fundamental_div_mod_converse(
                data_len + 31,
                32,
                data_len as int / 32,
                31,
            );
        } else {
            vstd::arithmetic::div_mod::lemma_fundamental_div_mod_converse(
                data_len + 31,
                32,
                data_len as int / 32 + 1,
                (data_len % 32) as int - 1,
            );
        }
    }
    KECCAK_BASE_COST + KECCAK_WORD_COST * words
}

/// The digest that blake3 assigns to a byte string; it depends on the bytes
/// alone.
pub uninterp spec fn blake3_of(data: Seq<u8>) -> Seq<u8>;

/// Relies on blake3::hash: a 32-byte digest, a function of the input bytes
/// alone.
#[verifier::external_body]
fn blake3_hash32(data: &Vec<u8>) -> (r: U256)
    ensures
        r.0@ == blake3_of(data@),
{
    let hash = blake3::hash(data.as_slice());
    let mut bytes = [0u8; 32];
    bytes.copy_from_slice(&hash.as_bytes()[..32]);
    U256(bytes)
}

/// The abstract state of an execution context: the storage map, the warmth,
/// access and stack state, and the gas consumed so far.
pub struct EvmState {
    pub storage: Map<Key, U256>,
    pub warm: Seq<Key>,
    pub cold: Seq<Key>,
    pub reads: Seq<Key>,
    pub writes: Seq<Key>,
    pub gas: int,
    pub stack: Seq<nat>,
}

/// Why a micro-op failed; an out-of-gas failure records the counter and
/// the limit it passed.
#[derive(PartialEq, Eq, Structural)]
pub enum StepError {
    GasOverflow,
    OutOfGas(u64, u64),
    StackUnderflowAdd,
    StackUnderflowSub,
}

/// The state after a micro-op, or the state at failure with the reason.
pub enum StepOutcome {
    Next(EvmState),
    Fail(EvmState, StepError),
}

/// The decimal digit character of a value below ten.
pub open spec fn dec_digit(d: int) -> char {
    if d == 0 {
        '0'
    } else if d == 1 {
        '1'
    } else if d == 2 {
        '2'
    } else if d == 3 {
        '3'
    } else if d == 4 {
        '4'
    } else if d == 5 {
        '5'
    } else if d == 6 {
        '6'
    } else if d == 7 {
        '7'
    } else if d == 8 {
        '8'
    } else {
        '9'
    }
}

/// The decimal rendering of a number, most significant digit first.
pub open spec fn dec_of(n: nat) -> Seq<char>
    decreases n,
{
    if n < 10 {
        seq![dec_digit(n as int)]
    } else {
        dec_of(n / 10).push(dec_digit((n % 10) as int))
    }
}

/// The error string reported for a failure reason.
pub open spec fn error_text(e: StepError) -> Seq<char> {
    match e {
        StepError::GasOverflow => "Gas overflow"@,
        StepError::OutOfGas(used, limit) => "Out of gas: used "@ + dec_of(used as nat)
            + " > limit "@ + dec_of(limit as nat),
        StepError::StackUnderflowAdd => "Stack underflow in ADD"@,
        StepError::StackUnderflowSub => "Stack underflow in SUB"@,
    }
}

/// The value of a key in a total storage view: zero when absent.
pub open spec fn store_val(st: Map<Key, U256>, k: Key) -> nat {
    if st.dom().contains(k) {
        st[k].as_nat()
    } else {
        0
    }
}

/// Charging gas: the amount is added unless it would overflow the counter,
/// and the result must stay within the limit.
pub open spec fn spec_consume(m: EvmState, limit: int, amount: int) -> StepOutcome {
    if m.gas + amount > u64::MAX {
        StepOutcome::Fail(m, StepError::GasOverflow)
    } else if m.gas + amount > limit {
        StepOutcome::Fail(
            EvmState { gas: m.gas + amount, ..m },
            StepError::OutOfGas((m.gas + amount) as u64, limit as u64),
        )
    } else {
        StepOutcome::Next(EvmState { gas: m.gas + amount, ..m })
    }
}

/// One micro-op on the abstract state.
pub open spec fn spec_step(op: MicroOp, m: EvmState, limit: int) -> StepOutcome {
    match op {
        MicroOp::SLoad(k) => {
            let is_cold = !m.warm.contains(k);
            match spec_consume(m, limit, spec_sload_gas(is_cold)) {
                StepOutcome::Fail(mf, e) => StepOutcome::Fail(mf, e),
                StepOutcome::Next(m1) => {
                    let m2 = if is_cold {
                        EvmState { cold: key_add(m1.cold, k), warm: key_add(m1.warm, k), ..m1 }
                    } else {
                        m1
                    };
                    StepOutcome::Next(
                        EvmState {
                            reads: key_add(m2.reads, k),
                            stack: m2.stack.push(store_val(m2.storage, k)),
                            ..m2
                        },
                    )
                },
            }
        },
        MicroOp::SStore(k, v) => {
            let is_cold = !m.warm.contains(k);
            let gas = spec_sstore_gas(is_cold, store_val(m.storage, k) == 0, v.as_nat() == 0);
            match spec_consume(m, limit, gas) {
                StepOutcome::Fail(mf, e) => StepOutcome::Fail(mf, e),
                StepOutcome::Next(m1) => {
                    let m2 = if is_cold {
                        EvmState { cold: key_add(m1.cold, k), warm: key_add(m1.warm, k), ..m1 }
                    } else {
                        m1
                    };
                    StepOutcome::Next(
                        EvmState {
                            writes: key_add(m2.writes, k),
                            storage: m2.storage.insert(k, v),
                            ..m2
                        },
                    )
                },
            }
        },
        MicroOp::Add(v) => {
            match spec_consume(m, limit, ADD_COST as int) {
                StepOutcome::Fail(mf, e) => StepOutcome::Fail(mf, e),
                StepOutcome::Next(m1) => {
                    if m1.stack.len() == 0 {
                        StepOutcome::Fail(m1, StepError::StackUnderflowAdd)
                    } else {
                        StepOutcome::Next(
                            EvmState {
                                stack: m1.stack.drop_last().push(
                                    ((m1.stack.last() + v.as_nat()) % crate::types::u256_mod()),
                                ),
                                ..m1
                            },
                        )
                    }
                },
            }
        },
        MicroOp::Sub(v) => {
            match spec_consume(m, limit, SUB_COST as int) {
                StepOutcome::Fail(mf, e) => StepOutcome::Fail(mf, e),
                StepOutcome::Next(m1) => {
                    if m1.stack.len() == 0 {
                        StepOutcome::Fail(m1, StepError::StackUnderflowSub)
                    } else {
                        StepOutcome::Next(
                            EvmState {
                                stack: m1.stack.drop_last().push(
                                    (((m1.stack.last() - v.as_nat()) % (
                                    crate::types::u256_mod() as int)) as nat),
                                ),
                                ..m1
                            },
                        )
                    }
                },
            }
        },
        MicroOp::Keccak(data) => {
            match spec_consume(m, limit, spec_keccak_gas(data@.len())) {
                StepOutcome::Fail(mf, e) => StepOutcome::Fail(mf, e),
                StepOutcome::Next(m1) => {
                    StepOutcome::Next(
                        EvmState { stack: m1.stack.push(be_nat(blake3_of(data@))), ..m1 },
                    )
                },
            }
        },
        MicroOp::NoOp => {
            match spec_consume(m, limit, NOOP_COST as int) {
                StepOutcome::Fail(mf, e) => StepOutcome::Fail(mf, e),
                StepOutcome::Next(m1) => StepOutcome::Next(m1),
            }
        },
    }
}

/// A whole program on the abstract state: the final state, with the reason
/// if some op failed.
pub open spec fn spec_run(prog: Seq<MicroOp>, m: EvmState, limit: int) -> (EvmState, Option<
    StepError,
>)
    decreases prog.len(),
{
    if prog.len() == 0 {
        (m, None)
    } else {
        match spec_step(prog[0], m, limit) {
            StepOutcome::Next(m1) => spec_run(prog.skip(1), m1, limit),
            StepOutcome::Fail(mf, e) => (mf, Some(e)),
        }
    }
}

/// The mutable state a transaction runs in: a storage handle, warmth and
/// access bookkeeping, gas, and the value stack.
pub struct ExecutionContext<S: KVStore> {
    pub storage: S,
    pub warm_keys: Vec<Key>,
    pub cold_keys: Vec<Key>,
    pub access_sets: AccessSets,
    pub gas_used: u64,
    pub stack: Vec<U256>,
    pub gas_limit: u64,
}

/// The stack as the sequence of the values it holds.
pub open spec fn stack_nats(s: Seq<U256>) -> Seq<nat> {
    s.map_values(|v: U256| v.as_nat())
}

impl<S: KVStore> ExecutionContext<S> {
    /// The abstract state this context holds.
    pub open spec fn model(self) -> EvmState {
        EvmState {
            storage: self.storage.sview(),
            warm: self.warm_keys@,
            cold: self.cold_keys@,
            reads: self.access_sets.reads@,
            writes: self.access_sets.writes@,
            gas: self.gas_used as int,
            stack: stack_nats(self.stack@),
        }
    }

    /// The key lists hold no duplicates.
    pub open spec fn wf(self) -> bool {
        self.warm_keys@.no_duplicates() && self.cold_keys@.no_duplicates()
            && self.access_sets.wf()
    }

    pub fn new(storage: S) -> (r: ExecutionContext<S>)
        ensures
            r.storage == storage,
            r.model() == (EvmState {
                storage: storage.sview(),
                warm: Seq::<Key>::empty(),
                cold: Seq::<Key>::empty(),
                reads: Seq::<Key>::empty(),
                writes: Seq::<Key>::empty(),
                gas: 0,
                stack: Seq::<nat>::empty(),
            }),
            r.gas_limit == u64::MAX,
            r.wf(),
    {
        let r = ExecutionContext {
            storage,
            warm_keys: Vec::new(),
            cold_keys: Vec::new(),
            access_sets: AccessSets::new(),
            gas_used: 0,
            stack: Vec::new(),
            gas_limit: u64::MAX,
        };
        proof {
            assert(stack_nats(r.stack@) =~= Seq::<nat>::empty());
        }
        r
    }

    pub fn with_gas_limit(storage: S, gas_limit: u64) -> (r: ExecutionContext<S>)
        ensures
            r.storage == storage,
            r.model() == (EvmState {
                storage: storage.sview(),
                warm: Seq::<Key>::empty(),
                cold: Seq::<Key>::empty(),
                reads: Seq::<Key>::empty(),
                writes: Seq::<Key>::empty(),
                gas: 0,
                stack: Seq::<nat>::empty(),
            }),
            r.gas_limit == gas_limit,
            r.wf(),
    {
        let r = ExecutionContext {
            storage,
            warm_keys: Vec::new(),
            cold_keys: Vec::new(),
            access_sets: AccessSets::new(),
            gas_used: 0,
            stack: Vec::new(),
            gas_limit,
        };
        proof {
            assert(stack_nats(r.stack@) =~= Seq::<nat>::empty());
        }
        r
    }

    /// Marks one key warm.
    pub fn warm_up(&mut self, key: Key)
        requires
            old(self).wf(),
        ensures
            final(self).wf(),
            final(self).warm_keys@ == key_add(old(self).warm_keys@, key),
            final(self).storage == old(self).storage,
            final(self).cold_keys == old(self).cold_keys,
            final(self).access_sets == old(self).access_sets,
            final(self).gas_used == old(self).gas_used,
            final(self).stack == old(self).stack,
            final(self).gas_limit == old(self).gas_limit,
    {
        proof {
            crate::types::lemma_key_add_no_dup(self.warm_keys@, key);
        }
        if !crate::types::key_list_contains(&self.warm_keys, &key) {
            self.warm_keys.push(key);
        }
    }

    /// Marks each listed key warm.
    pub fn warm_up_keys(&mut self, keys: &Vec<Key>)
        requires
            old(self).wf(),
        ensures
            final(self).wf(),
            final(self).warm_keys@ == key_seq_union(old(self).warm_keys@, keys@),
            final(self).storage == old(self).storage,
            final(self).cold_keys == old(self).cold_keys,
            final(self).access_sets == old(self).access_sets,
            final(self).gas_used == old(self).gas_used,
            final(self).stack == old(self).stack,
            final(self).gas_limit == old(self).gas_limit,
    {
        let mut i: usize = 0;
        while i < keys.len()
            invariant
                0 <= i <= keys@.len(),
                self.wf(),
                self.warm_keys@ == key_seq_union(old(self).warm_keys@, keys@.take(i as int)),
                self.storage == old(self).storage,
                self.cold_keys == old(self).cold_keys,
                self.access_sets == old(self).access_sets,
                self.gas_used == old(self).gas_used,
                self.stack == old(self).stack,
                self.gas_limit == old(self).gas_limit,
            decreases keys@.len() - i,
        {
            proof {
                assert(keys@.take(i + 1).drop_last() =~= keys@.take(i as int));
                assert(keys@.take(i + 1).last() == keys@[i as int]);
                crate::types::lemma_key_add_no_dup(self.warm_keys@, keys@[i as int]);
            }
            if !crate::types::key_list_contains(&self.warm_keys, &keys[i]) {
                self.warm_keys.push(keys[i]);
            }
            i += 1;
        }
        proof {
            assert(keys@.take(keys@.len() as int) =~= keys@);
        }
    }

    /// Whether a key is warm.
    pub fn is_warm(&self, key: &Key) -> (r: bool)
        ensures
            r == self.warm_keys@.contains(*key),
    {
        crate::types::key_list_contains(&self.warm_keys, key)
    }

    /// Whether the gas consumed stays within the limit.
    pub fn check_gas(&self) -> (r: Result<(), String>)
        ensures
            self.gas_used <= self.gas_limit ==> r is Ok,
            self.gas_used > self.gas_limit ==> r is Err && (r->Err_0)@ == error_text(
                StepError::OutOfGas(self.gas_used, self.gas_limit),
            ),
    {
        if self.gas_used > self.gas_limit {
            let msg = out_of_gas_text(self.gas_used, self.gas_limit);
            Err(msg)
        } else {
            Ok(())
        }
    }

    /// Adds to the gas counter; fails on counter overflow or when the limit
    /// is passed.
    pub fn consume_gas(&mut self, amount: u64) -> (r: Result<(), String>)
        ensures
            final(self).gas_limit == old(self).gas_limit,
            final(self).storage == old(self).storage,
            final(self).warm_keys == old(self).warm_keys,
            final(self).cold_keys == old(self).cold_keys,
            final(self).access_sets == old(self).access_sets,
            final(self).stack == old(self).stack,
            match spec_consume(old(self).model(), old(self).gas_limit as int, amount as int) {
                StepOutcome::Next(m) => r is Ok && final(self).model() == m,
                StepOutcome::Fail(mf, e) => r is Err && final(self).model() == mf && (
                r->Err_0)@ == error_text(e),
            },
    {
        match self.gas_used.checked_add(amount) {
            Some(total) => {
                self.gas_used = total;
                if total > self.gas_limit {
                    let msg = out_of_gas_text(total, self.gas_limit);
                    Err(msg)
                } else {
                    Ok(())
                }
            },
            None => {
                let msg = gas_overflow_text();
                Err(msg)
            },
        }
    }

    /// Clears the per-transaction state, keeping the storage and, if asked,
    /// the warm keys.
    pub fn reset_for_new_tx(&mut self, keep_warm_keys: bool)
        requires
            old(self).wf(),
        ensures
            final(self).wf(),
            final(self).storage == old(self).storage,
            final(self).gas_limit == old(self).gas_limit,
            final(self).warm_keys@ == if keep_warm_keys {
                old(self).warm_keys@
            } else {
                Seq::<Key>::empty()
            },
            final(self).cold_keys@ == Seq::<Key>::empty(),
            final(self).access_sets.reads@ == Seq::<Key>::empty(),
            final(self).access_sets.writes@ == Seq::<Key>::empty(),
            final(self).gas_used == 0,
            final(self).stack@ == Seq::<U256>::empty(),
    {
        if !keep_warm_keys {
            self.warm_keys = Vec::new();
        }
        self.cold_keys = Vec::new();
        self.access_sets = AccessSets::new();
        self.gas_used = 0;
        self.stack = Vec::new();
    }
}

/// The contract every micro-op executor meets: the context moves as
/// `spec_step` says, and a failure carries the step error's text.
pub open spec fn op_post(
    op: MicroOp,
    pre: EvmState,
    limit: int,
    post: EvmState,
    r: Result<(), String>,
) -> bool {
    match spec_step(op, pre, limit) {
        StepOutcome::Next(m) => r is Ok && post == m,
        StepOutcome::Fail(mf, e) => r is Err && post == mf && (r->Err_0)@ == error_text(e),
    }
}

/// Marks a key cold and warm after a first touch.
fn record_cold<S: KVStore>(key: Key, ctx: &mut ExecutionContext<S>)
    requires
        old(ctx).wf(),
    ensures
        final(ctx).wf(),
        final(ctx).warm_keys@ == key_add(old(ctx).warm_keys@, key),
        final(ctx).cold_keys@ == key_add(old(ctx).cold_keys@, key),
        final(ctx).storage == old(ctx).storage,
        final(ctx).access_sets == old(ctx).access_sets,
        final(ctx).gas_used == old(ctx).gas_used,
        final(ctx).stack == old(ctx).stack,
        final(ctx).gas_limit == old(ctx).gas_limit,
{
    proof {
        crate::types::lemma_key_add_no_dup(self_cold(ctx), key);
        crate::types::lemma_key_add_no_dup(ctx.warm_keys@, key);
    }
    if !crate::types::key_list_contains(&ctx.cold_keys, &key) {
        ctx.cold_keys.push(key);
    }
    ctx.warm_up(key);
}

/// The cold-key list of a context, for proof text.
pub open spec fn self_cold<S: KVStore>(ctx: &ExecutionContext<S>) -> Seq<Key> {
    ctx.cold_keys@
}

fn execute_sload<S: KVStore>(key: Key, ctx: &mut ExecutionContext<S>) -> (r: Result<(), String>)
    requires
        old(ctx).wf(),
    ensures
        final(ctx).wf(),
        final(ctx).gas_limit == old(ctx).gas_limit,
        op_post(
            MicroOp::SLoad(key),
            old(ctx).model(),
            old(ctx).gas_limit as int,
            final(ctx).model(),
            r,
        ),
{
    let is_cold = !ctx.is_warm(&key);
    match ctx.consume_gas(calculate_sload_gas(is_cold)) {
        Err(e) => {
            return Err(e);
        },
        Ok(()) => {},
    }
    if is_cold {
        record_cold(key, ctx);
    }
    ctx.access_sets.add_read(key);
    let ghost prev = ctx.stack@;
    let v = ctx.storage.get(&key);
    ctx.stack.push(v);
    proof {
        assert(stack_nats(ctx.stack@) =~= stack_nats(prev).push(v.as_nat()));
    }
    Ok(())
}

fn execute_sstore<S: KVStore>(key: Key, value: U256, ctx: &mut ExecutionContext<S>) -> (r: Result<
    (),
    String,
>)
    requires
        old(ctx).wf(),
    ensures
        final(ctx).wf(),
        final(ctx).gas_limit == old(ctx).gas_limit,
        op_post(
            MicroOp::SStore(key, value),
            old(ctx).model(),
            old(ctx).gas_limit as int,
            final(ctx).model(),
            r,
        ),
{
    let is_cold = !ctx.is_warm(&key);
    let current = ctx.storage.get(&key);
    match ctx.consume_gas(calculate_sstore_gas(is_cold, current, value)) {
        Err(e) => {
            return Err(e);
        },
        Ok(()) => {},
    }
    if is_cold {
        record_cold(key, ctx);
    }
    ctx.access_sets.add_write(key);
    ctx.storage.set(key, value);
    Ok(())
}

fn execute_add<S: KVStore>(value: U256, ctx: &mut ExecutionContext<S>) -> (r: Result<(), String>)
    requires
        old(ctx).wf(),
    ensures
        final(ctx).wf(),
        final(ctx).gas_limit == old(ctx).gas_limit,
        op_post(
            MicroOp::Add(value),
            old(ctx).model(),
            old(ctx).gas_limit as int,
            final(ctx).model(),
            r,
        ),
{
    match ctx.consume_gas(ADD_COST) {
        Err(e) => {
            return Err(e);
        },
        Ok(()) => {},
    }
    let ghost prev = ctx.stack@;
    match ctx.stack.pop() {
        Some(a) => {
            let s = a.add(&value);
            ctx.stack.push(s);
            proof {
                assert(stack_nats(prev).len() > 0);
                assert(stack_nats(ctx.stack@) =~= stack_nats(prev).drop_last().push(s.as_nat()));
                assert(stack_nats(prev).last() == a.as_nat());
            }
            Ok(())
        },
        None => {
            proof {
                assert(stack_nats(prev).len() == 0);
            }
            Err(stack_underflow_add_text())
        },
    }
}

fn execute_sub<S: KVStore>(value: U256, ctx: &mut ExecutionContext<S>) -> (r: Result<(), String>)
    requires
        old(ctx).wf(),
    ensures
        final(ctx).wf(),
        final(ctx).gas_limit == old(ctx).gas_limit,
        op_post(
            MicroOp::Sub(value),
            old(ctx).model(),
            old(ctx).gas_limit as int,
            final(ctx).model(),
            r,
        ),
{
    match ctx.consume_gas(SUB_COST) {
        Err(e) => {
            return Err(e);
        },
        Ok(()) => {},
    }
    let ghost prev = ctx.stack@;
    match ctx.stack.pop() {
        Some(a) => {
            let s = a.sub(&value);
            ctx.stack.push(s);
            proof {
                assert(stack_nats(prev).len() > 0);
                assert(stack_nats(ctx.stack@) =~= stack_nats(prev).drop_last().push(s.as_nat()));
                assert(stack_nats(prev).last() == a.as_nat());
            }
            Ok(())
        },
        None => {
            proof {
                assert(stack_nats(prev).len() == 0);
            }
            Err(stack_underflow_sub_text())
        },
    }
}

fn execute_keccak<S: KVStore>(data: &Vec<u8>, ctx: &mut ExecutionContext<S>) -> (r: Result<
    (),
    String,
>)
    requires
        old(ctx).wf(),
    ensures
        final(ctx).wf(),
        final(ctx).gas_limit == old(ctx).gas_limit,
        op_post(
            MicroOp::Keccak(*data),
            old(ctx).model(),
            old(ctx).gas_limit as int,
            final(ctx).model(),
            r,
        ),
{
    match ctx.consume_gas(calculate_keccak_gas(data.len())) {
        Err(e) => {
            return Err(e);
        },
        Ok(()) => {},
    }
    let ghost prev = ctx.stack@;
    let h = blake3_hash32(data);
    ctx.stack.push(h);
    proof {
        assert(stack_nats(ctx.stack@) =~= stack_nats(prev).push(h.as_nat()));
    }
    Ok(())
}

fn execute_noop<S: KVStore>(ctx: &mut ExecutionContext<S>) -> (r: Result<(), String>)
    requires
        old(ctx).wf(),
    ensures
        final(ctx).wf(),
        final(ctx).gas_limit == old(ctx).gas_limit,
        op_post(MicroOp::NoOp, old(ctx).model(), old(ctx).gas_limit as int, final(ctx).model(), r),
{
    ctx.consume_gas(NOOP_COST)
}

/// Runs one micro-op on the context, as `spec_step` describes.
pub fn execute_op<S: KVStore>(op: &MicroOp, ctx: &mut ExecutionContext<S>) -> (r: Result<
    (),
    String,
>)
    requires
        old(ctx).wf(),
    ensures
        final(ctx).wf(),
        final(ctx).gas_limit == old(ctx).gas_limit,
        op_post(*op, old(ctx).model(), old(ctx).gas_limit as int, final(ctx).model(), r),
{
    match op {
        MicroOp::SLoad(key) => execute_sload(*key, ctx),
        MicroOp::SStore(key, value) => execute_sstore(*key, *value, ctx),
        MicroOp::Add(value) => execute_add(*value, ctx),
        MicroOp::Sub(value) => execute_sub(*value, ctx),
        MicroOp::Keccak(data) => execute_keccak(data, ctx),
        MicroOp::NoOp => execute_noop(ctx),
    }
}

/// Relies on std's String::push_str: appends the characters of the slice
/// to the string.
pub assume_specification[ String::push_str ](s: &mut String, other: &str)
    ensures
        final(s)@ == old(s)@ + other@,
;

/// The decimal digit character of a value below ten.
fn dec_digit_char(d: u64) -> (c: char)
    requires
        d < 10,
    ensures
        c == dec_digit(d as int),
{
    if d == 0 {
        '0'
    } else if d == 1 {
        '1'
    } else if d == 2 {
        '2'
    } else if d == 3 {
        '3'
    } else if d == 4 {
        '4'
    } else if d == 5 {
        '5'
    } else if d == 6 {
        '6'
    } else if d == 7 {
        '7'
    } else if d == 8 {
        '8'
    } else {
        '9'
    }
}

/// Renders a number in decimal, most significant digit first.
pub fn u64_to_string(n: u64) -> (r: String)
    ensures
        r@ == dec_of(n as nat),
    decreases n,
{
    if n < 10 {
        let mut s = String::new();
        s.push(dec_digit_char(n));
        proof {
            assert(s@ =~= seq![dec_digit(n as int)]);
        }
        s
    } else {
        let mut s = u64_to_string(n / 10);
        s.push(dec_digit_char(n % 10));
        s
    }
}

/// The "Out of gas" message, with the counter and the limit it passed.
fn out_of_gas_text(used: u64, limit: u64) -> (r: String)
    ensures
        r@ == error_text(StepError::OutOfGas(used, limit)),
{
    let mut s = String::new();
    s.push_str("Out of gas: used ");
    let u = u64_to_string(used);
    s.push_str(u.as_str());
    s.push_str(" > limit ");
    let l = u64_to_string(limit);
    s.push_str(l.as_str());
    s
}

/// The "Gas overflow" message.
fn gas_overflow_text() -> (r: String)
    ensures
        r@ == error_text(StepError::GasOverflow),
{
    broadcast use vstd::string::to_string_from_display_ensures_for_str;

    "Gas overflow".to_string()
}

/// The "Stack underflow in ADD" message.
fn stack_underflow_add_text() -> (r: String)
    ensures
        r@ == error_text(StepError::StackUnderflowAdd),
{
    broadcast use vstd::string::to_string_from_display_ensures_for_str;

    "Stack underflow in ADD".to_string()
}

/// The "Stack underflow in SUB" message.
fn stack_underflow_sub_text() -> (r: String)
    ensures
        r@ == error_text(StepError::StackUnderflowSub),
{
    broadcast use vstd::string::to_string_from_display_ensures_for_str;

    "Stack underflow in SUB".to_string()
}

/// The observable content of an execution result, for specification.
pub struct ResultModel {
    pub tx_id: u64,
    pub success: bool,
    pub gas_used: int,
    pub reads: Seq<Key>,
    pub writes: Seq<Key>,
    pub warm: Seq<Key>,
    pub cold: Seq<Key>,
    pub reverted: bool,
    pub error: Option<Seq<char>>,
}

/// The model a concrete execution result denotes.
pub open spec fn res_view(r: ExecutionResult) -> ResultModel {
    ResultModel {
        tx_id: r.tx_id,
        success: r.success,
        gas_used: r.gas_used as int,
        reads: r.access_sets.reads@,
        writes: r.access_sets.writes@,
        warm: r.warm_keys@,
        cold: r.cold_keys@,
        reverted: r.reverted,
        error: match r.error {
            Option::None => Option::None,
            Option::Some(s) => Option::Some(s@),
        },
    }
}

/// The result a transaction must report, given the state its run ended in.
pub open spec fn result_model_of(tx: Transaction, mend: EvmState, err: Option<StepError>)
    -> ResultModel {
    match err {
        Option::None => ResultModel {
            tx_id: tx.id,
            success: true,
            gas_used: mend.gas,
            reads: mend.reads,
            writes: mend.writes,
            warm: mend.warm,
            cold: mend.cold,
            reverted: false,
            error: Option::None,
        },
        Option::Some(e) => ResultModel {
            tx_id: tx.id,
            success: false,
            gas_used: 0,
            reads: Seq::<Key>::empty(),
            writes: Seq::<Key>::empty(),
            warm: Seq::<Key>::empty(),
            cold: Seq::<Key>::empty(),
            reverted: true,
            error: Option::Some(error_text(e)),
        },
    }
}

/// The state a transaction starts from: the advisory access list is warm.
pub open spec fn tx_start(tx: Transaction, m: EvmState) -> EvmState {
    EvmState { warm: key_seq_union(m.warm, tx.metadata.access_list@), ..m }
}

/// The contract of running one transaction in a context.
pub open spec fn tx_post(
    tx: Transaction,
    pre: EvmState,
    limit: int,
    post: EvmState,
    result: ExecutionResult,
) -> bool {
    let (mend, err) = spec_run(tx.metadata.program@, tx_start(tx, pre), limit);
    post == mend && res_view(result) == result_model_of(tx, mend, err)
}

/// Runs a transaction's program in the context. The access list is warmed
/// first; a failing op yields a failure result with empty access sets.
pub fn execute_transaction<S: KVStore>(tx: &Transaction, ctx: &mut ExecutionContext<S>) -> (result:
    ExecutionResult)
    requires
        old(ctx).wf(),
    ensures
        final(ctx).wf(),
        final(ctx).gas_limit == old(ctx).gas_limit,
        tx_post(*tx, old(ctx).model(), old(ctx).gas_limit as int, final(ctx).model(), result),
{
    ctx.warm_up_keys(&tx.metadata.access_list);
    let ghost m0 = ctx.model();
    let ghost limit = ctx.gas_limit as int;
    let ghost prog = tx.metadata.program@;
    proof {
        assert(m0 == tx_start(*tx, old(ctx).model()));
        assert(prog.skip(0) =~= prog);
    }
    let mut idx: usize = 0;
    while idx < tx.metadata.program.len()
        invariant
            0 <= idx <= prog.len(),
            prog == tx.metadata.program@,
            m0 == tx_start(*tx, old(ctx).model()),
            ctx.wf(),
            ctx.gas_limit == old(ctx).gas_limit,
            limit == ctx.gas_limit as int,
            spec_run(prog, m0, limit) == spec_run(prog.skip(idx as int), ctx.model(), limit),
        decreases prog.len() - idx,
    {
        let ghost pre = ctx.model();
        let r = execute_op(&tx.metadata.program[idx], ctx);
        proof {
            assert(prog.skip(idx as int)[0] == prog[idx as int]);
            assert(prog.skip(idx as int).skip(1) =~= prog.skip(idx + 1));
        }
        match r {
            Ok(()) => {},
            Err(e) => {
                let res = ExecutionResult::failure(tx.id, e);
                proof {
                    let fo = spec_step(prog[idx as int], pre, limit);
                    assert(fo is Fail);
                    let mf = fo->Fail_0;
                    let ek = fo->Fail_1;
                    assert(spec_run(prog.skip(idx as int), pre, limit) == (mf, Some(ek)));
                    assert(spec_run(prog, m0, limit) == (mf, Some(ek)));
                    assert(ctx.model() == mf);
                    assert(e@ == error_text(ek));
                    let rm = res_view(res);
                    let em = result_model_of(*tx, mf, Some(ek));
                    assert(rm.tx_id == em.tx_id);
                    assert(rm.success == em.success);
                    assert(rm.gas_used == em.gas_used);
                    assert(rm.reads == em.reads);
                    assert(rm.writes == em.writes);
                    assert(rm.warm == em.warm);
                    assert(rm.cold == em.cold);
                    assert(rm.reverted == em.reverted);
                    assert(rm.error == em.error);
                    assert(rm == em);
                }
                return res;
            },
        }
        idx += 1;
    }
    proof {
        assert(prog.skip(prog.len() as int) =~= Seq::<MicroOp>::empty());
    }
    let sets = ctx.access_sets.clone();
    let warm = crate::types::clone_key_list(&ctx.warm_keys);
    let cold = crate::types::clone_key_list(&ctx.cold_keys);
    ExecutionResult::success(tx.id, ctx.gas_used, sets, warm, cold)
}

/// Every written key is present in the run's storage, since a write inserts
/// its key.
pub proof fn lemma_run_writes_in_dom(prog: Seq<MicroOp>, m: EvmState, limit: int)
    requires
        forall|k: Key| m.writes.contains(k) ==> m.storage.dom().contains(k),
    ensures
        ({
            let (mend, err) = spec_run(prog, m, limit);
            forall|k: Key| mend.writes.contains(k) ==> mend.storage.dom().contains(k)
        }),
    decreases prog.len(),
{
    if prog.len() == 0 {
    } else {
        match spec_step(prog[0], m, limit) {
            StepOutcome::Next(m1) => {
                assert forall|k: Key| m1.writes.contains(k) implies m1.storage.dom().contains(
                    k,
                ) by {
                    match prog[0] {
                        MicroOp::SStore(key, v) => {
                            crate::types::lemma_key_add_contains(m.writes, key, k);
                        },
                        _ => {},
                    }
                }
                lemma_run_writes_in_dom(prog.skip(1), m1, limit);
                assert(spec_run(prog, m, limit) == spec_run(prog.skip(1), m1, limit));
            },
            StepOutcome::Fail(mf, e) => {
                assert(mf.writes == m.writes && mf.storage == m.storage);
                assert(spec_run(prog, m, limit) == (mf, Some(e)));
            },
        }
    }
}

/// Saturating addition on gas totals.
pub open spec fn sat_add(a: int, b: int) -> int {
    if a + b > u64::MAX {
        u64::MAX as int
    } else {
        a + b
    }
}

/// The committed state after a successful transaction: each written key
/// takes its value from the transaction's own storage.
pub open spec fn commit_writes(st: Map<Key, U256>, task: Map<Key, U256>, writes: Seq<Key>) -> Map<
    Key,
    U256,
>
    decreases writes.len(),
{
    if writes.len() == 0 {
        st
    } else {
        let prev = commit_writes(st, task, writes.drop_last());
        if task.dom().contains(writes.last()) {
            prev.insert(writes.last(), task[writes.last()])
        } else {
            prev
        }
    }
}

/// The shared state a serial execution folds over.
pub struct SerialState {
    pub storage: Map<Key, U256>,
    pub warm: Seq<Key>,
    pub results: Seq<ResultModel>,
    pub total_gas: int,
}

/// The starting state of one transaction under serial execution.
pub open spec fn serial_tx_entry(st: SerialState) -> EvmState {
    EvmState {
        storage: st.storage,
        warm: st.warm,
        cold: Seq::<Key>::empty(),
        reads: Seq::<Key>::empty(),
        writes: Seq::<Key>::empty(),
        gas: 0,
        stack: Seq::<nat>::empty(),
    }
}

/// Serial execution of one transaction: run it on the shared state, commit
/// its writes when it succeeds, and record its result.
pub open spec fn spec_serial_step(st: SerialState, tx: Transaction) -> SerialState {
    let (mend, err) = spec_run(
        tx.metadata.program@,
        tx_start(tx, serial_tx_entry(st)),
        u64::MAX as int,
    );
    let rm = result_model_of(tx, mend, err);
    if err is None {
        SerialState {
            storage: commit_writes(st.storage, mend.storage, mend.writes),
            warm: mend.warm,
            results: st.results.push(rm),
            total_gas: sat_add(st.total_gas, mend.gas),
        }
    } else {
        SerialState { results: st.results.push(rm), ..st }
    }
}

/// Serial execution of a list of transactions, in order.
pub open spec fn spec_serial(txs: Seq<Transaction>, init: SerialState) -> SerialState
    decreases txs.len(),
{
    if txs.len() == 0 {
        init
    } else {
        spec_serial_step(spec_serial(txs.drop_last(), init), txs.last())
    }
}

/// The serial state a fresh store and block start from.
pub open spec fn serial_init(storage: Map<Key, U256>) -> SerialState {
    SerialState {
        storage,
        warm: Seq::<Key>::empty(),
        results: Seq::<ResultModel>::empty(),
        total_gas: 0,
    }
}

/// What serial execution of a block returns.
pub struct SerialExecutionResult<S: KVStore> {
    pub storage: S,
    pub results: Vec<ExecutionResult>,
    pub total_gas: u64,
}

/// Applies the writes of a successful result to the shared store, reading
/// each written key's value from the transaction's own storage.
pub(crate) fn commit_result_writes<S: KVStore, T: KVStore>(
    store: &mut S,
    task: &T,
    writes: &Vec<Key>,
)
    requires
        forall|k: Key| #[trigger] writes@.contains(k) ==> task.sview().dom().contains(k),
    ensures
        final(store).sview() == commit_writes(old(store).sview(), task.sview(), writes@),
{
    let mut i: usize = 0;
    while i < writes.len()
        invariant
            0 <= i <= writes@.len(),
            forall|k: Key| #[trigger] writes@.contains(k) ==> task.sview().dom().contains(k),
            store.sview() == commit_writes(old(store).sview(), task.sview(), writes@.take(i as int)),
        decreases writes@.len() - i,
    {
        let key = writes[i];
        proof {
            assert(writes@.contains(key));
            assert(writes@.take(i + 1).drop_last() =~= writes@.take(i as int));
            assert(writes@.take(i + 1).last() == key);
        }
        let v = task.get(&key);
        store.set(key, v);
        i += 1;
    }
    proof {
        assert(writes@.take(writes@.len() as int) =~= writes@);
    }
}

/// Executes the block's transactions one at a time in order, each on a
/// snapshot of the shared store; a successful transaction's writes are
/// committed and its touched keys stay warm for the rest of the block.
pub fn execute_serial<S: KVStore>(block: &Block, storage: S) -> (r: SerialExecutionResult<S>)
    ensures
        ({
            let fin = spec_serial(block.transactions@, serial_init(storage.sview()));
            &&& r.storage.sview() == fin.storage
            &&& r.results@.map_values(|e: ExecutionResult| res_view(e)) == fin.results
            &&& r.total_gas == fin.total_gas
        }),
{
    let ghost init = serial_init(storage.sview());
    let mut store = storage;
    let mut warm: Vec<Key> = Vec::new();
    let mut results: Vec<ExecutionResult> = Vec::new();
    let mut total_gas: u64 = 0;
    let ghost txs = block.transactions@;
    proof {
        assert(txs.take(0) =~= Seq::<Transaction>::empty());
        assert(results@.map_values(|e: ExecutionResult| res_view(e)) =~= Seq::<
            ResultModel,
        >::empty());
    }
    let mut i: usize = 0;
    while i < block.transactions.len()
        invariant
            0 <= i <= txs.len(),
            txs == block.transactions@,
            init == serial_init(init.storage),
            warm@.no_duplicates(),
            ({
                let st = spec_serial(txs.take(i as int), init);
                &&& store.sview() == st.storage
                &&& warm@ == st.warm
                &&& results@.map_values(|e: ExecutionResult| res_view(e)) == st.results
                &&& total_gas == st.total_gas
            }),
        decreases txs.len() - i,
    {
        let ghost st = spec_serial(txs.take(i as int), init);
        let tx = &block.transactions[i];
        let mut ctx = ExecutionContext::new(store.snapshot());
        ctx.warm_keys = crate::types::clone_key_list(&warm);
        proof {
            assert(ctx.model() == serial_tx_entry(st));
        }
        let result = execute_transaction(tx, &mut ctx);
        proof {
            assert(txs.take(i + 1).drop_last() =~= txs.take(i as int));
            assert(txs.take(i + 1).last() == txs[i as int]);
        }
        if result.success {
            proof {
                lemma_run_writes_in_dom(
                    tx.metadata.program@,
                    tx_start(*tx, serial_tx_entry(st)),
                    u64::MAX as int,
                );
            }
            commit_result_writes(&mut store, &ctx.storage, &result.access_sets.writes);
            total_gas = match total_gas.checked_add(result.gas_used) {
                Some(t) => t,
                None => u64::MAX,
            };
            warm = crate::types::clone_key_list(&result.warm_keys);
        }
        results.push(result);
        proof {
            assert(results@.drop_last().map_values(|e: ExecutionResult| res_view(e))
                =~= results@.map_values(|e: ExecutionResult| res_view(e)).drop_last());
            assert(results@.map_values(|e: ExecutionResult| res_view(e)) =~= st.results.push(
                res_view(results@.last()),
            ));
        }
        i += 1;
    }
    proof {
        assert(txs.take(txs.len() as int) =~= txs);
    }
    SerialExecutionResult { storage: store, results, total_gas }
}

} // verus!
