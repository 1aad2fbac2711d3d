//! Core data model: storage keys, 256-bit values, micro-ops, transactions,
//! blocks, and access sets.
use vstd::prelude::*;

verus! {

broadcast use vstd::array::group_array_axioms;

/// Bytewise equality of fixed-size byte arrays.
fn array_eq<const N: usize>(a: &[u8; N], b: &[u8; N]) -> (r: bool)
    ensures
        r == (*a == *b),
{
    let mut i: usize = 0;
    while i < N
        invariant
            0 <= i <= N,
            forall|j: int| 0 <= j < i ==> a@[j] == b@[j],
        decreases N - i,
    {
        if a[i] != b[i] {
            return false;
        }
        i += 1;
    }
    proof {
        assert(a@ =~= b@);
        assert(*a =~= *b);
    }
    true
}

/// A storage location: a 20-byte account address and a 32-byte slot.
#[derive(Clone, Copy, Debug, Eq, Hash)]
pub struct Key {
    pub address: [u8; 20],
    pub slot: [u8; 32],
}

impl PartialEq for Key {
    #[verifier::rlimit(100)]
    #[verifier::spinoff_prover]
    fn eq(&self, other: &Key) -> (r: bool) {
        let ae = array_eq(&self.address, &other.address);
        let se = array_eq(&self.slot, &other.slot);
        proof {
            assert(*other == (Key { address: other.address, slot: other.slot }));
            assert(*self == (Key { address: self.address, slot: self.slot }));
            if ae && se {
                assert(*self == (Key { address: other.address, slot: other.slot }));
                assert(*self == *other);
            }
            if !(ae && se) {
                assert(*self != *other);
            }
        }
        ae && se
    }
}

impl vstd::std_specs::cmp::PartialEqSpecImpl for Key {
    open spec fn obeys_eq_spec() -> bool {
        true
    }

    open spec fn eq_spec(&self, other: &Key) -> bool {
        *self == *other
    }
}

impl Key {
    pub fn new(address: [u8; 20], slot: [u8; 32]) -> (r: Key)
        ensures
            r == (Key { address, slot }),
    {
        Key { address, slot }
    }
}

/// A 256-bit unsigned integer, stored as 32 big-endian bytes.
#[derive(Clone, Copy, Debug, Eq, Hash)]
pub struct U256(pub [u8; 32]);

impl PartialEq for U256 {
    #[verifier::rlimit(100)]
    #[verifier::spinoff_prover]
    fn eq(&self, other: &U256) -> (r: bool) {
        let ae = array_eq(&self.0, &other.0);
        proof {
            if ae {
                assert(*self == U256(other.0));
            }
        }
        ae
    }
}

impl vstd::std_specs::cmp::PartialEqSpecImpl for U256 {
    open spec fn obeys_eq_spec() -> bool {
        true
    }

    open spec fn eq_spec(&self, other: &U256) -> bool {
        *self == *other
    }
}

/// 256 raised to a power.
pub open spec fn p256(e: nat) -> nat
    decreases e,
{
    if e == 0 {
        1nat
    } else {
        256 * p256((e - 1) as nat)
    }
}

/// Powers of 256 are positive.
pub proof fn lemma_p256_pos(e: nat)
    ensures
        p256(e) >= 1,
    decreases e,
{
    if e > 0 {
        lemma_p256_pos((e - 1) as nat);
    }
}

/// Powers of 256 multiply by adding exponents.
pub proof fn lemma_p256_adds(a: nat, b: nat)
    ensures
        p256((a + b) as nat) == p256(a) * p256(b),
    decreases a,
{
    if a == 0 {
        assert(p256((0 + b) as nat) == p256(b));
        assert(p256(0nat) == 1);
    } else {
        lemma_p256_adds((a - 1) as nat, b);
        assert(p256((a + b) as nat) == 256 * p256((a + b - 1) as nat));
        assert(((a - 1) as nat + b) as nat == (a + b - 1) as nat);
        assert(p256(a) == 256 * p256((a - 1) as nat));
        assert(256 * (p256((a - 1) as nat) * p256(b)) == (256 * p256((a - 1) as nat)) * p256(b))
            by (nonlinear_arith);
    }
}

/// Powers of 256 grow with the exponent.
pub proof fn lemma_p256_increases(a: nat, b: nat)
    requires
        a <= b,
    ensures
        p256(a) <= p256(b),
{
    lemma_p256_adds(a, (b - a) as nat);
    lemma_p256_pos(a);
    lemma_p256_pos((b - a) as nat);
    assert(p256(a) * p256((b - a) as nat) >= p256(a) * 1) by (nonlinear_arith)
        requires p256((b - a) as nat) >= 1 && p256(a) >= 1;
}

/// The modulus of the word arithmetic: 2 to the 256th.
pub open spec fn u256_mod() -> nat {
    0x1_0000_0000_0000_0000 * 0x1_0000_0000_0000_0000 * 0x1_0000_0000_0000_0000
        * 0x1_0000_0000_0000_0000
}

/// The modulus is 256 to the 32nd.
pub proof fn lemma_u256_mod()
    ensures
        u256_mod() == p256(32),
{
    assert(p256(32) == u256_mod()) by {
        reveal_with_fuel(p256, 33);
    }
}

/// The integer denoted by a big-endian byte string.
pub open spec fn be_nat(s: Seq<u8>) -> nat
    decreases s.len(),
{
    if s.len() == 0 {
        0nat
    } else {
        (s[0] * p256((s.len() - 1) as nat) + be_nat(s.skip(1))) as nat
    }
}

/// A byte string of zeros denotes zero.
pub proof fn lemma_be_nat_all_zero(s: Seq<u8>)
    requires
        forall|i: int| 0 <= i < s.len() ==> s[i] == 0,
    ensures
        be_nat(s) == 0,
    decreases s.len(),
{
    if s.len() > 0 {
        lemma_be_nat_all_zero(s.skip(1));
    }
}

/// A big-endian byte string splits at any point into a high and a low part.
#[verifier::rlimit(100)]
#[verifier::spinoff_prover]
pub proof fn lemma_be_nat_split(s: Seq<u8>, k: int)
    requires
        0 <= k <= s.len(),
    ensures
        be_nat(s) == be_nat(s.take(k)) * p256((s.len() - k) as nat) + be_nat(s.skip(k)),
    decreases k,
{
    lemma_p256_pos((s.len() - k) as nat);
    if k == 0 {
        assert(s.take(0) =~= Seq::<u8>::empty());
        assert(s.skip(0) =~= s);
    } else {
        lemma_be_nat_split(s.skip(1), k - 1);
        assert(s.skip(1).take(k - 1) =~= s.take(k).skip(1));
        assert(s.skip(1).skip(k - 1) =~= s.skip(k));
        let hi = s.take(k);
        assert(be_nat(hi) == (hi[0] * p256((k - 1) as nat) + be_nat(hi.skip(1))) as nat);
        assert(hi[0] == s[0]);
        lemma_p256_adds((k - 1) as nat, (s.len() - k) as nat);
        assert(p256((k - 1) as nat) * p256((s.len() - k) as nat) == p256((s.len() - 1) as nat));
        assert(be_nat(s) == s[0] * p256((s.len() - 1) as nat) + be_nat(s.skip(1)));
        let pp = p256((s.len() - k) as nat);
        assert((hi[0] * p256((k - 1) as nat) + be_nat(hi.skip(1))) * pp
            == hi[0] * (p256((k - 1) as nat) * pp) + be_nat(hi.skip(1)) * pp)
            by (nonlinear_arith);
        assert(be_nat(hi) * pp == hi[0] * (p256((k - 1) as nat) * pp) + be_nat(hi.skip(1)) * pp);
        assert(hi[0] * (p256((k - 1) as nat) * pp) == s[0] * p256((s.len() - 1) as nat));
        assert(be_nat(s.skip(1)) == be_nat(hi.skip(1)) * pp + be_nat(s.skip(k)));
        assert(be_nat(s) == be_nat(hi) * pp + be_nat(s.skip(k)));
    }
}

/// The value of a byte string is below 256 to its length.
pub proof fn lemma_be_nat_bound(s: Seq<u8>)
    ensures
        be_nat(s) < p256(s.len()),
    decreases s.len(),
{
    if s.len() == 0 {
    } else {
        lemma_be_nat_bound(s.skip(1));
        let e = (s.len() - 1) as nat;
        assert(s[0] <= 255);
        lemma_p256_pos(e);
        assert(s[0] * p256(e) <= 255 * p256(e)) by (nonlinear_arith)
            requires s[0] <= 255 && p256(e) > 0;
        assert(256 * p256(e) == p256(s.len()));
    }
}

/// A byte string with a nonzero byte denotes a positive integer.
pub proof fn lemma_be_nat_nonzero(s: Seq<u8>, i: int)
    requires
        0 <= i < s.len(),
        s[i] != 0,
    ensures
        be_nat(s) > 0,
    decreases i,
{
    if i == 0 {
        lemma_p256_pos((s.len() - 1) as nat);
        assert(s[0] * p256((s.len() - 1) as nat) >= p256((s.len() - 1) as nat))
            by (nonlinear_arith)
            requires s[0] >= 1 && p256((s.len() - 1) as nat) >= 1,
        ;
    } else {
        lemma_be_nat_nonzero(s.skip(1), i - 1);
        lemma_p256_pos((s.len() - 1) as nat);
        vstd::arithmetic::mul::lemma_mul_nonnegative(s[0] as int, p256((s.len() - 1) as nat) as int);
    }
}

/// A one-byte string denotes its byte.
pub proof fn lemma_be_nat_single(s: Seq<u8>)
    requires
        s.len() == 1,
    ensures
        be_nat(s) == s[0],
{
    assert(s.skip(1) =~= Seq::<u8>::empty());
    assert(be_nat(Seq::<u8>::empty()) == 0);
    assert(p256(0nat) == 1);
    assert(be_nat(s) == (s[0] * p256((s.len() - 1) as nat) + be_nat(s.skip(1))) as nat);
    assert(be_nat(s.skip(1)) == 0);
    assert((s.len() - 1) as nat == 0nat);
    assert(be_nat(s) == (s[0] * 1 + 0) as nat);
    assert(be_nat(s) == s[0]);
}

/// Appending a byte multiplies the value by 256 and adds the byte.
pub proof fn lemma_be_nat_push(s: Seq<u8>, b: u8)
    ensures
        be_nat(s.push(b)) == be_nat(s) * 256 + b,
{
    let t = s.push(b);
    lemma_be_nat_split(t, s.len() as int);
    assert(t.take(s.len() as int) =~= s);
    assert(t.skip(s.len() as int) =~= seq![b]);
    lemma_be_nat_single(seq![b]);
}

impl U256 {
    /// The integer value of this 256-bit word.
    pub open spec fn as_nat(self) -> nat {
        be_nat(self.0@)
    }

    pub fn zero() -> (r: U256)
        ensures
            r.as_nat() == 0,
    {
        let b: [u8; 32] = [0u8; 32];
        proof {
            assert(b == vstd::array::spec_array_fill_for_copy_type::<u8, 32>(0u8));
            assert(forall|i: int| 0 <= i < 32 ==> b@[i] == 0);
            lemma_be_nat_all_zero(b@);
        }
        U256(b)
    }

    /// The 256-bit word with the given small value.
    pub fn from_u64(val: u64) -> (r: U256)
        ensures
            r.as_nat() == val,
    {
        let mut b: [u8; 32] = [0u8; 32];
        let mut v: u64 = val;
        let mut i: usize = 0;
        proof {
            assert(b == vstd::array::spec_array_fill_for_copy_type::<u8, 32>(0u8));
            assert(forall|i2: int| 0 <= i2 < 32 ==> b@[i2] == 0);
            assert(b@.skip(32) =~= Seq::<u8>::empty());
            assert(be_nat(Seq::<u8>::empty()) == 0);
            assert(p256(0nat) == 1);
        }
        while i < 8
            invariant
                0 <= i <= 8,
                val as nat == be_nat(b@.skip(32 - i)) + v * p256(i as nat),
                forall|j: int| 0 <= j < 32 - i ==> b@[j] == 0,
            decreases 8 - i,
        {
            let ghost prev = b@;
            let byte: u8 = (v % 256) as u8;
            b[31 - i] = byte;
            proof {
                assert(b@ =~= prev.update(31 - i as int, byte));
                assert(b@.skip(32 - (i + 1)).skip(1) =~= prev.skip(32 - i));
                assert(be_nat(b@.skip(31 - i as int)) == byte * p256(i as nat) + be_nat(
                    prev.skip(32 - i),
                ));
                assert(v % 256 * p256(i as nat) + (v / 256) * (256 * p256(i as nat)) == v * p256(
                    i as nat,
                )) by (nonlinear_arith);
                assert(256 * p256(i as nat) == p256((i + 1) as nat));
            }
            v = v / 256;
            i += 1;
        }
        proof {
            assert(v == 0) by {
                assert(val < p256(8)) by {
                    reveal_with_fuel(p256, 9);
                }
                assert(v * p256(8) <= val);
                lemma_p256_pos(8);
                if v >= 1 {
                    assert(v * p256(8) >= p256(8)) by (nonlinear_arith)
                        requires v >= 1 && p256(8) > 0;
                }
            }
            assert(b@.skip(24) == b@.skip(32 - 8));
            lemma_be_nat_split(b@, 24);
            lemma_be_nat_all_zero(b@.take(24));
        }
        U256(b)
    }

    /// The value as a machine integer, if it fits.
    #[verifier::rlimit(100)]
    #[verifier::spinoff_prover]
    pub fn to_u64(&self) -> (r: Option<u64>)
        ensures
            self.as_nat() < 0x1_0000_0000_0000_0000 ==> r == Some(self.as_nat() as u64),
            self.as_nat() >= 0x1_0000_0000_0000_0000 ==> r is None,
    {
        proof {
            lemma_be_nat_split(self.0@, 24);
            lemma_be_nat_bound(self.0@.skip(24));
            assert(p256(8) == 0x1_0000_0000_0000_0000) by {
                reveal_with_fuel(p256, 9);
            }
        }
        let mut i: usize = 0;
        while i < 24
            invariant
                0 <= i <= 24,
                forall|j: int| 0 <= j < i ==> self.0@[j] == 0,
            decreases 24 - i,
        {
            if self.0[i] != 0 {
                proof {
                    assert(p256(8) == 0x1_0000_0000_0000_0000) by {
                        reveal_with_fuel(p256, 9);
                    }
                    let s = self.0@;
                    let tail = s.skip(i as int);
                    lemma_be_nat_split(s, i as int);
                    vstd::arithmetic::mul::lemma_mul_nonnegative(
                        be_nat(s.take(i as int)) as int,
                        p256((32 - i) as nat) as int,
                    );
                    assert(tail[0] == s[i as int]);
                    assert(tail.len() == 32 - i);
                    assert(be_nat(tail) == (tail[0] * p256((tail.len() - 1) as nat) + be_nat(
                        tail.skip(1),
                    )) as nat);
                    assert((tail.len() - 1) as nat == (31 - i) as nat);
                    lemma_p256_pos((31 - i) as nat);
                    assert(tail[0] * p256((31 - i) as nat) >= p256((31 - i) as nat))
                        by (nonlinear_arith)
                        requires tail[0] >= 1 && p256((31 - i) as nat) > 0,
                    ;
                    lemma_p256_increases(8, (31 - i) as nat);
                }
                return None;
            }
            i += 1;
        }
        proof {
            lemma_be_nat_all_zero(self.0@.take(24));
        }
        let mut v: u64 = 0;
        let mut k: usize = 24;
        proof {
            assert(self.0@.skip(24).take(0) =~= Seq::<u8>::empty());
        }
        while k < 32
            invariant
                24 <= k <= 32,
                v as nat == be_nat(self.0@.skip(24).take(k - 24)),
                be_nat(self.0@.skip(24)) < p256(8),
            decreases 32 - k,
        {
            let byte = self.0[k];
            proof {
                assert(p256(8) == 0x1_0000_0000_0000_0000) by {
                    reveal_with_fuel(p256, 9);
                }
                let lo = self.0@.skip(24);
                let m = k - 24 + 1;
                assert(lo[k - 24] == self.0@[k as int]);
                assert(lo.take(m) =~= lo.take(k - 24).push(lo[k - 24]));
                lemma_be_nat_push(lo.take(k - 24), lo[k - 24]);
                lemma_be_nat_split(lo, m);
                vstd::arithmetic::mul::lemma_mul_nonnegative(
                    be_nat(lo.take(m)) as int,
                    p256((8 - m) as nat) as int,
                );
                lemma_p256_pos((8 - m) as nat);
                assert(be_nat(lo.take(m)) * p256((8 - m) as nat) >= be_nat(lo.take(m)))
                    by (nonlinear_arith)
                    requires p256((8 - m) as nat) >= 1,
                ;
                assert(be_nat(lo.take(m)) < p256(8));
                assert(be_nat(lo.take(m)) == (v as nat) * 256 + byte);
            }
            v = v * 256 + (byte as u64);
            k += 1;
        }
        proof {
            assert(self.0@.skip(24).take(8) =~= self.0@.skip(24));
        }
        Some(v)
    }

    /// Modular addition of two 256-bit words.
    pub fn add(&self, other: &U256) -> (r: U256)
        ensures
            r.as_nat() == (self.as_nat() + other.as_nat()) % u256_mod(),
    {
        let mut result: [u8; 32] = [0u8; 32];
        let mut carry: u16 = 0;
        let mut k: usize = 0;
        proof {
            assert(result@.skip(32) =~= Seq::<u8>::empty());
            assert(self.0@.skip(32) =~= Seq::<u8>::empty());
            assert(other.0@.skip(32) =~= Seq::<u8>::empty());
            assert(be_nat(Seq::<u8>::empty()) == 0);
            assert(p256(0nat) == 1);
        }
        while k < 32
            invariant
                0 <= k <= 32,
                carry <= 1,
                be_nat(self.0@.skip(32 - k)) + be_nat(other.0@.skip(32 - k)) == be_nat(
                    result@.skip(32 - k),
                ) + carry * p256(k as nat),
            decreases 32 - k,
        {
            let i = 31 - k;
            let sum: u16 = self.0[i] as u16 + other.0[i] as u16 + carry;
            let ghost prev = result@;
            result[i] = (sum % 256) as u8;
            proof {
                let ka = k as nat;
                assert(result@ =~= prev.update(i as int, (sum % 256) as u8));
                assert(result@.skip(i as int).skip(1) =~= prev.skip(32 - k));
                assert(self.0@.skip(i as int).skip(1) =~= self.0@.skip(32 - k));
                assert(other.0@.skip(i as int).skip(1) =~= other.0@.skip(32 - k));
                let ra = be_nat(result@.skip(i as int));
                let aa = be_nat(self.0@.skip(i as int));
                let ba = be_nat(other.0@.skip(i as int));
                assert(ra == (sum % 256) * p256(ka) + be_nat(prev.skip(32 - k)));
                assert(aa == self.0@[i as int] * p256(ka) + be_nat(self.0@.skip(32 - k)));
                assert(ba == other.0@[i as int] * p256(ka) + be_nat(other.0@.skip(32 - k)));
                assert(p256((ka + 1) as nat) == 256 * p256(ka));
                assert(sum == (sum / 256) * 256 + sum % 256);
                assert(aa + ba == ra + (sum / 256) * p256((ka + 1) as nat)) by (nonlinear_arith)
                    requires
                        aa == self.0@[i as int] * p256(ka) + be_nat(self.0@.skip(32 - k)),
                        ba == other.0@[i as int] * p256(ka) + be_nat(other.0@.skip(32 - k)),
                        be_nat(self.0@.skip(32 - k)) + be_nat(other.0@.skip(32 - k)) == be_nat(
                            prev.skip(32 - k),
                        ) + carry * p256(ka),
                        ra == (sum % 256) * p256(ka) + be_nat(prev.skip(32 - k)),
                        sum == self.0@[i as int] + other.0@[i as int] + carry,
                        sum == (sum / 256) * 256 + sum % 256,
                        p256((ka + 1) as nat) == 256 * p256(ka),
                ;
            }
            carry = sum / 256;
            k += 1;
        }
        proof {
            lemma_be_nat_bound(result@.skip(0));
            assert(result@.skip(0) =~= result@);
            assert(self.0@.skip(0) =~= self.0@);
            assert(other.0@.skip(0) =~= other.0@);
            lemma_p256_pos(32);
            lemma_u256_mod();
            vstd::arithmetic::div_mod::lemma_fundamental_div_mod_converse(
                (self.as_nat() + other.as_nat()) as int,
                u256_mod() as int,
                carry as int,
                be_nat(result@) as int,
            );
        }
        U256(result)
    }

    /// Whether this word is zero.
    pub fn is_zero(&self) -> (r: bool)
        ensures
            r == (self.as_nat() == 0),
    {
        let mut i: usize = 0;
        while i < 32
            invariant
                0 <= i <= 32,
                forall|j: int| 0 <= j < i ==> self.0@[j] == 0,
            decreases 32 - i,
        {
            if self.0[i] != 0 {
                proof {
                    lemma_be_nat_nonzero(self.0@, i as int);
                }
                return false;
            }
            i += 1;
        }
        proof {
            lemma_be_nat_all_zero(self.0@);
        }
        true
    }

    /// Modular subtraction of two 256-bit words.
    pub fn sub(&self, other: &U256) -> (r: U256)
        ensures
            r.as_nat() == (self.as_nat() - other.as_nat()) % (u256_mod() as int),
    {
        let mut result: [u8; 32] = [0u8; 32];
        let mut borrow: i16 = 0;
        let mut k: usize = 0;
        proof {
            assert(result@.skip(32) =~= Seq::<u8>::empty());
            assert(self.0@.skip(32) =~= Seq::<u8>::empty());
            assert(other.0@.skip(32) =~= Seq::<u8>::empty());
            assert(be_nat(Seq::<u8>::empty()) == 0);
            assert(p256(0nat) == 1);
        }
        while k < 32
            invariant
                0 <= k <= 32,
                0 <= borrow <= 1,
                be_nat(result@.skip(32 - k)) == be_nat(self.0@.skip(32 - k)) - be_nat(
                    other.0@.skip(32 - k),
                ) + borrow * p256(k as nat),
            decreases 32 - k,
        {
            let i = 31 - k;
            let diff: i16 = self.0[i] as i16 - other.0[i] as i16 - borrow;
            let cell: u8 = if diff < 0 {
                (diff + 256) as u8
            } else {
                diff as u8
            };
            let nb: i16 = if diff < 0 {
                1
            } else {
                0
            };
            let ghost prev = result@;
            result[i] = cell;
            proof {
                let ka = k as nat;
                assert(result@ =~= prev.update(i as int, cell));
                assert(result@.skip(i as int).skip(1) =~= prev.skip(32 - k));
                assert(self.0@.skip(i as int).skip(1) =~= self.0@.skip(32 - k));
                assert(other.0@.skip(i as int).skip(1) =~= other.0@.skip(32 - k));
                let ra = be_nat(result@.skip(i as int));
                let aa = be_nat(self.0@.skip(i as int));
                let ba = be_nat(other.0@.skip(i as int));
                assert(ra == cell * p256(ka) + be_nat(prev.skip(32 - k)));
                assert(aa == self.0@[i as int] * p256(ka) + be_nat(self.0@.skip(32 - k)));
                assert(ba == other.0@[i as int] * p256(ka) + be_nat(other.0@.skip(32 - k)));
                assert(p256((ka + 1) as nat) == 256 * p256(ka));
                assert(cell == self.0@[i as int] - other.0@[i as int] - borrow + 256 * nb);
                assert(ra == aa - ba + nb * p256((ka + 1) as nat)) by (nonlinear_arith)
                    requires
                        aa == self.0@[i as int] * p256(ka) + be_nat(self.0@.skip(32 - k)),
                        ba == other.0@[i as int] * p256(ka) + be_nat(other.0@.skip(32 - k)),
                        be_nat(prev.skip(32 - k)) == be_nat(self.0@.skip(32 - k)) - be_nat(
                            other.0@.skip(32 - k),
                        ) + borrow * p256(ka),
                        ra == cell * p256(ka) + be_nat(prev.skip(32 - k)),
                        cell == self.0@[i as int] - other.0@[i as int] - borrow + 256 * nb,
                        p256((ka + 1) as nat) == 256 * p256(ka),
                ;
            }
            borrow = nb;
            k += 1;
        }
        proof {
            lemma_be_nat_bound(result@.skip(0));
            assert(result@.skip(0) =~= result@);
            assert(self.0@.skip(0) =~= self.0@);
            assert(other.0@.skip(0) =~= other.0@);
            lemma_p256_pos(32);
            lemma_u256_mod();
            if borrow == 0 {
                assert(-(borrow as int) * (u256_mod() as int) == 0);
            } else {
                assert(borrow == 1);
                assert(-(borrow as int) * (u256_mod() as int) == -(u256_mod() as int));
                assert(1 * p256(32 as nat) == p256(32 as nat)) by (nonlinear_arith);
            }
            vstd::arithmetic::div_mod::lemma_fundamental_div_mod_converse(
                self.as_nat() - other.as_nat(),
                u256_mod() as int,
                -(borrow as int),
                be_nat(result@) as int,
            );
        }
        U256(result)
    }
}

/// Whether a key occurs in a list.
pub fn key_list_contains(v: &Vec<Key>, k: &Key) -> (r: bool)
    ensures
        r == v@.contains(*k),
{
    let mut i: usize = 0;
    while i < v.len()
        invariant
            0 <= i <= v@.len(),
            forall|j: int| 0 <= j < i ==> v@[j] != *k,
        decreases v@.len() - i,
    {
        if v[i] == *k {
            return true;
        }
        i += 1;
    }
    false
}

/// A list extended by a key, unless the key is already present.
pub open spec fn key_add(s: Seq<Key>, k: Key) -> Seq<Key> {
    if s.contains(k) {
        s
    } else {
        s.push(k)
    }
}

/// Adding a key preserves freedom from duplicates.
pub proof fn lemma_key_add_no_dup(s: Seq<Key>, k: Key)
    requires
        s.no_duplicates(),
    ensures
        key_add(s, k).no_duplicates(),
        key_add(s, k).to_set() == s.to_set().insert(k),
        key_add(s, k).contains(k),
{
    if !s.contains(k) {
        let t = s.push(k);
        assert forall|x: Key| t.to_set().contains(x) implies s.to_set().insert(k).contains(x) by {
            let i = choose|i: int| 0 <= i < t.len() && t[i] == x;
            if i < s.len() {
                assert(s[i] == x);
            }
        }
        assert forall|x: Key| s.to_set().insert(k).contains(x) implies t.to_set().contains(x) by {
            if x == k {
                assert(t[s.len() as int] == x);
            } else {
                let i = choose|i: int| 0 <= i < s.len() && s[i] == x;
                assert(t[i] == x);
            }
        }
        assert(t.to_set() =~= s.to_set().insert(k));
        assert forall|i: int, j: int| 0 <= i < j < t.len() implies t[i] != t[j] by {
            if j == s.len() {
                assert(t[j] == k);
                assert(!s.contains(k));
                assert(s[i] == t[i]);
            }
        }
        assert(t.no_duplicates());
        assert(t[s.len() as int] == k);
        assert(t.contains(k));
    } else {
        assert(s.to_set().contains(k));
        assert(s.to_set() =~= s.to_set().insert(k));
    }
}

/// Appends each key of `src` that is not yet in `dst`.
pub fn key_list_merge(dst: &mut Vec<Key>, src: &Vec<Key>)
    ensures
        final(dst)@ == key_seq_union(old(dst)@, src@),
{
    let mut i: usize = 0;
    while i < src.len()
        invariant
            0 <= i <= src@.len(),
            dst@ == key_seq_union(old(dst)@, src@.take(i as int)),
        decreases src@.len() - i,
    {
        proof {
            assert(src@.take(i + 1).drop_last() =~= src@.take(i as int));
            assert(src@.take(i + 1).last() == src@[i as int]);
        }
        if !key_list_contains(dst, &src[i]) {
            dst.push(src[i]);
        }
        i += 1;
    }
    proof {
        assert(src@.take(src@.len() as int) =~= src@);
    }
}

/// Membership in a list extended by `key_add`.
pub proof fn lemma_key_add_contains(s: Seq<Key>, k: Key, x: Key)
    ensures
        key_add(s, k).contains(x) <==> (s.contains(x) || x == k),
{
    if !s.contains(k) {
        let t = s.push(k);
        if t.contains(x) {
            let i = choose|i: int| 0 <= i < t.len() && t[i] == x;
            if i < s.len() {
                assert(s[i] == x);
            }
        }
        if s.contains(x) {
            let i = choose|i: int| 0 <= i < s.len() && s[i] == x;
            assert(t[i] == x);
        }
        assert(t[s.len() as int] == k);
    }
}

/// The fold of `key_add` over a second list.
pub open spec fn key_seq_union(a: Seq<Key>, b: Seq<Key>) -> Seq<Key>
    decreases b.len(),
{
    if b.len() == 0 {
        a
    } else {
        key_add(key_seq_union(a, b.drop_last()), b.last())
    }
}

/// The union fold keeps no-duplicates and denotes set union.
pub proof fn lemma_key_seq_union_props(a: Seq<Key>, b: Seq<Key>)
    requires
        a.no_duplicates(),
    ensures
        key_seq_union(a, b).no_duplicates(),
        key_seq_union(a, b).to_set() == a.to_set().union(b.to_set()),
    decreases b.len(),
{
    if b.len() == 0 {
        assert(b.to_set() =~= Set::<Key>::empty());
        assert(a.to_set().union(b.to_set()) =~= a.to_set());
    } else {
        lemma_key_seq_union_props(a, b.drop_last());
        lemma_key_add_no_dup(key_seq_union(a, b.drop_last()), b.last());
        assert(b.drop_last().push(b.last()) =~= b);
        assert(b.drop_last().to_set().insert(b.last()) =~= b.to_set()) by {
            assert forall|k: Key| b.to_set().contains(k) implies b.drop_last().to_set().insert(
                b.last(),
            ).contains(k) by {
                let idx = choose|idx: int| 0 <= idx < b.len() && b[idx] == k;
                if idx < b.len() - 1 {
                    assert(b.drop_last()[idx] == k);
                }
            }
        }
        assert(a.to_set().union(b.drop_last().to_set()).insert(b.last()) =~= a.to_set().union(
            b.to_set(),
        ));
    }
}

/// Whether some key occurs in both lists.
pub fn key_lists_intersect(a: &Vec<Key>, b: &Vec<Key>) -> (r: bool)
    ensures
        r == sets_intersect(a@.to_set(), b@.to_set()),
{
    let mut i: usize = 0;
    while i < a.len()
        invariant
            0 <= i <= a@.len(),
            forall|j: int| 0 <= j < i ==> !b@.contains(a@[j]),
        decreases a@.len() - i,
    {
        if key_list_contains(b, &a[i]) {
            assert(sets_intersect(a@.to_set(), b@.to_set())) by {
                assert(a@.to_set().contains(a@[i as int]));
                assert(b@.to_set().contains(a@[i as int]));
            }
            return true;
        }
        i += 1;
    }
    proof {
        if sets_intersect(a@.to_set(), b@.to_set()) {
            let k = choose|k: Key| a@.to_set().contains(k) && b@.to_set().contains(k);
            assert(a@.contains(k));
        }
    }
    false
}

/// Whether two key sets share an element.
pub open spec fn sets_intersect(a: Set<Key>, b: Set<Key>) -> bool {
    exists|k: Key| a.contains(k) && b.contains(k)
}

/// The read/write conflict predicate on two pairs of access sets: any
/// write/write, write/read or read/write overlap.
pub open spec fn sets_conflict(ar: Set<Key>, aw: Set<Key>, br: Set<Key>, bw: Set<Key>) -> bool {
    sets_intersect(aw, bw) || sets_intersect(aw, br) || sets_intersect(ar, bw)
}

/// The estimated or observed read and write sets of a transaction.
#[derive(Debug)]
pub struct AccessSets {
    pub reads: Vec<Key>,
    pub writes: Vec<Key>,
}

impl Clone for AccessSets {
    fn clone(&self) -> (r: Self)
        ensures
            r.reads@ == self.reads@,
            r.writes@ == self.writes@,
    {
        AccessSets { reads: clone_key_list(&self.reads), writes: clone_key_list(&self.writes) }
    }
}

/// A copy of a list of keys.
pub fn clone_key_list(v: &Vec<Key>) -> (r: Vec<Key>)
    ensures
        r@ == v@,
{
    let mut out: Vec<Key> = Vec::new();
    let mut i: usize = 0;
    while i < v.len()
        invariant
            0 <= i <= v@.len(),
            out@ == v@.take(i as int),
        decreases v@.len() - i,
    {
        out.push(v[i]);
        proof {
            assert(v@.take(i + 1) =~= v@.take(i as int).push(v@[i as int]));
        }
        i += 1;
    }
    proof {
        assert(v@.take(v@.len() as int) =~= v@);
    }
    out
}

impl AccessSets {
    /// Both lists hold each key at most once.
    pub open spec fn wf(self) -> bool {
        self.reads@.no_duplicates() && self.writes@.no_duplicates()
    }

    /// The set of keys read.
    pub open spec fn read_set(self) -> Set<Key> {
        self.reads@.to_set()
    }

    /// The set of keys written.
    pub open spec fn write_set(self) -> Set<Key> {
        self.writes@.to_set()
    }

    pub fn new() -> (r: AccessSets)
        ensures
            r.reads@ == Seq::<Key>::empty(),
            r.writes@ == Seq::<Key>::empty(),
            r.wf(),
    {
        AccessSets { reads: Vec::new(), writes: Vec::new() }
    }

    pub fn add_read(&mut self, key: Key)
        ensures
            final(self).reads@ == key_add(old(self).reads@, key),
            final(self).writes@ == old(self).writes@,
    {
        if !key_list_contains(&self.reads, &key) {
            self.reads.push(key);
        }
    }

    pub fn add_write(&mut self, key: Key)
        ensures
            final(self).writes@ == key_add(old(self).writes@, key),
            final(self).reads@ == old(self).reads@,
    {
        if !key_list_contains(&self.writes, &key) {
            self.writes.push(key);
        }
    }

    /// Folds the other pair of sets into this one.
    pub fn merge(&mut self, other: &AccessSets)
        ensures
            final(self).reads@ == key_seq_union(old(self).reads@, other.reads@),
            final(self).writes@ == key_seq_union(old(self).writes@, other.writes@),
    {
        key_list_merge(&mut self.reads, &other.reads);
        key_list_merge(&mut self.writes, &other.writes);
    }

    /// Whether this pair of sets conflicts with the other: any write/write,
    /// write/read or read/write overlap.
    pub fn has_conflict_with(&self, other: &AccessSets) -> (r: bool)
        ensures
            r == sets_conflict(
                self.read_set(),
                self.write_set(),
                other.read_set(),
                other.write_set(),
            ),
    {
        key_lists_intersect(&self.writes, &other.writes) || key_lists_intersect(
            &self.writes,
            &other.reads,
        ) || key_lists_intersect(&self.reads, &other.writes)
    }
}

/// One interpreter instruction.
#[derive(Debug, Clone)]
pub enum MicroOp {
    SLoad(Key),
    SStore(Key, U256),
    Add(U256),
    Sub(U256),
    Keccak(Vec<u8>),
    NoOp,
}

/// Auxiliary transaction fields: the program, the advisory access list, and
/// opaque envelope data.
#[derive(Debug, Clone)]
pub struct TransactionMetadata {
    pub program: Vec<MicroOp>,
    pub access_list: Vec<Key>,
    pub blob_size: u64,
    pub nonce: u64,
    pub from: [u8; 20],
}

/// One transaction of a block; `id` gives the serial order.
#[derive(Debug, Clone)]
pub struct Transaction {
    pub id: u64,
    pub reads: Vec<Key>,
    pub writes: Vec<Key>,
    pub gas_hint: u64,
    pub metadata: TransactionMetadata,
}

/// An ordered sequence of transactions, executed atomically.
#[derive(Debug, Clone)]
pub struct Block {
    pub number: u64,
    pub timestamp: u64,
    pub transactions: Vec<Transaction>,
    pub parent_hash: [u8; 32],
}

/// Transaction ids strictly ascend, so block order is serial order.
pub open spec fn block_wf(txs: Seq<Transaction>) -> bool {
    forall|i: int, j: int| 0 <= i < j < txs.len() ==> txs[i].id < txs[j].id
}

/// Relies on std's SystemTime::now for a wall-clock Unix timestamp:
/// whole seconds since the epoch, zero when the clock is set before it;
/// nothing more is assumed of the value.
#[verifier::external_body]
fn current_timestamp() -> u64 {
    match std::time::SystemTime::now().duration_since(std::time::UNIX_EPOCH) {
        Ok(d) => d.as_secs(),
        Err(_) => 0,
    }
}

impl Block {
    /// A block stamped with the current wall-clock time.
    pub fn new(number: u64, transactions: Vec<Transaction>) -> (r: Block)
        ensures
            r.number == number,
            r.transactions == transactions,
            r.parent_hash@ =~= Seq::<u8>::new(32, |i: int| 0u8),
    {
        let ph: [u8; 32] = [0u8; 32];
        Block { number, timestamp: current_timestamp(), transactions, parent_hash: ph }
    }
}

/// The outcome of one transaction: status, gas, and the observed access and
/// warmth sets.
#[derive(Debug)]
pub struct ExecutionResult {
    pub tx_id: u64,
    pub success: bool,
    pub gas_used: u64,
    pub access_sets: AccessSets,
    pub warm_keys: Vec<Key>,
    pub cold_keys: Vec<Key>,
    pub reverted: bool,
    pub error: Option<String>,
}

impl ExecutionResult {
    /// The record of a transaction that ran to completion.
    pub fn success(
        tx_id: u64,
        gas_used: u64,
        access_sets: AccessSets,
        warm_keys: Vec<Key>,
        cold_keys: Vec<Key>,
    ) -> (r: ExecutionResult)
        ensures
            r.tx_id == tx_id,
            r.success,
            r.gas_used == gas_used,
            r.access_sets == access_sets,
            r.warm_keys == warm_keys,
            r.cold_keys == cold_keys,
            !r.reverted,
            r.error is None,
    {
        ExecutionResult {
            tx_id,
            success: true,
            gas_used,
            access_sets,
            warm_keys,
            cold_keys,
            reverted: false,
            error: None,
        }
    }

    /// The record of a transaction that failed: empty sets, no gas charged.
    pub fn failure(tx_id: u64, error: String) -> (r: ExecutionResult)
        ensures
            r.tx_id == tx_id,
            !r.success,
            r.gas_used == 0,
            r.access_sets.reads@ == Seq::<Key>::empty(),
            r.access_sets.writes@ == Seq::<Key>::empty(),
            r.warm_keys@ == Seq::<Key>::empty(),
            r.cold_keys@ == Seq::<Key>::empty(),
            r.reverted,
            r.error == Some(error),
    {
        ExecutionResult {
            tx_id,
            success: false,
            gas_used: 0,
            access_sets: AccessSets::new(),
            warm_keys: Vec::new(),
            cold_keys: Vec::new(),
            reverted: true,
            error: Some(error),
        }
    }
}

} // verus!
