//! Fixed-width values of the chain: hashes, addresses and 256-bit integers.

use vstd::prelude::*;

verus! {

/// Two to the power 64: the weight of one limb of a [`U256`].
pub open spec fn pow2_64() -> int {
    0x1_0000_0000_0000_0000int
}

/// Two to the power 128.
pub open spec fn pow2_128() -> int {
    0x1_0000_0000_0000_0000_0000_0000_0000_0000int
}

/// Two to the power 192.
pub open spec fn pow2_192() -> int {
    0x1_0000_0000_0000_0000_0000_0000_0000_0000_0000_0000_0000_0000int
}

/// Two to the power 256: the least natural number that no [`U256`] holds.
pub open spec fn pow2_256() -> int {
    0x1_0000_0000_0000_0000_0000_0000_0000_0000_0000_0000_0000_0000_0000_0000_0000_0000int
}

/// A 32-byte hash, such as the identifier of a transaction.
#[derive(Clone, Copy, Debug, PartialEq, Eq)]
pub struct H256 {
    pub bytes: [u8; 32],
}

impl H256 {
    /// Whether two hashes hold the same bytes.
    pub fn same(&self, other: &H256) -> (r: bool)
        ensures
            r == (*self == *other),
    {
        let mut i: usize = 0;
        while i < 32
            invariant
                i <= 32,
                forall|j: int| 0 <= j < i ==> self.bytes[j] == other.bytes[j],
            decreases 32 - i,
        {
            if self.bytes[i] != other.bytes[i] {
                return false;
            }
            i += 1;
        }
        assert(self.bytes@ =~= other.bytes@);
        assert(self.bytes == other.bytes);
        true
    }
}

/// A 20-byte address, such as the identifier of a token contract.
#[derive(Clone, Copy, Debug, PartialEq, Eq)]
pub struct H160 {
    pub bytes: [u8; 20],
}

impl H160 {
    /// Whether two addresses hold the same bytes.
    pub fn same(&self, other: &H160) -> (r: bool)
        ensures
            r == (*self == *other),
    {
        let mut i: usize = 0;
        while i < 20
            invariant
                i <= 20,
                forall|j: int| 0 <= j < i ==> self.bytes[j] == other.bytes[j],
            decreases 20 - i,
        {
            if self.bytes[i] != other.bytes[i] {
                return false;
            }
            i += 1;
        }
        assert(self.bytes@ =~= other.bytes@);
        assert(self.bytes == other.bytes);
        true
    }
}

/// An unsigned 256-bit integer, held as four 64-bit limbs with the least
/// significant limb first.
#[derive(Clone, Copy, Debug, PartialEq, Eq)]
pub struct U256 {
    pub limbs: [u64; 4],
}

impl View for U256 {
    type V = nat;

    /// The natural number that the limbs stand for.
    open spec fn view(&self) -> nat {
        (self.limbs[0] + self.limbs[1] * pow2_64() + self.limbs[2] * pow2_128() + self.limbs[3]
            * pow2_192()) as nat
    }
}

impl U256 {
    /// The integer with the given limbs, least significant first.
    pub fn from_limbs(limbs: [u64; 4]) -> (r: U256)
        ensures
            r.limbs == limbs,
    {
        U256 { limbs }
    }

    /// The integer zero.
    pub fn zero() -> (r: U256)
        ensures
            r@ == 0,
    {
        U256 { limbs: [0u64, 0u64, 0u64, 0u64] }
    }

    /// The 256-bit integer equal to a 64-bit one.
    pub fn from_u64(value: u64) -> (r: U256)
        ensures
            r@ == value,
    {
        U256 { limbs: [value, 0u64, 0u64, 0u64] }
    }

    /// The greatest 256-bit integer.
    pub fn max_value() -> (r: U256)
        ensures
            r@ == pow2_256() - 1,
    {
        U256 { limbs: [u64::MAX, u64::MAX, u64::MAX, u64::MAX] }
    }

    /// Whether this is the integer zero.
    pub fn is_zero(&self) -> (r: bool)
        ensures
            r == (self@ == 0),
    {
        self.limbs[0] == 0 && self.limbs[1] == 0 && self.limbs[2] == 0 && self.limbs[3] == 0
    }

    /// Whether two integers are equal.
    pub fn same(&self, other: &U256) -> (r: bool)
        ensures
            r == (*self == *other),
            r == (self@ == other@),
    {
        proof {
            lemma_value_determines_limbs(*self, *other);
        }
        let r = self.limbs[0] == other.limbs[0] && self.limbs[1] == other.limbs[1]
            && self.limbs[2] == other.limbs[2] && self.limbs[3] == other.limbs[3];
        if r {
            assert(self.limbs@ =~= other.limbs@);
            assert(self.limbs == other.limbs);
        }
        r
    }

    /// Divides by ten, returning quotient and remainder.
    pub fn div_rem_10(&self) -> (r: (U256, u8))
        ensures
            r.0@ == self@ / 10,
            r.1 == self@ % 10,
    {
        let q3: u64 = self.limbs[3] / 10;
        let r3: u64 = self.limbs[3] % 10;
        let t2: u128 = (r3 as u128) * 0x1_0000_0000_0000_0000u128 + (self.limbs[2] as u128);
        let q2: u64 = (t2 / 10) as u64;
        let r2: u64 = (t2 % 10) as u64;
        let t1: u128 = (r2 as u128) * 0x1_0000_0000_0000_0000u128 + (self.limbs[1] as u128);
        let q1: u64 = (t1 / 10) as u64;
        let r1: u64 = (t1 % 10) as u64;
        let t0: u128 = (r1 as u128) * 0x1_0000_0000_0000_0000u128 + (self.limbs[0] as u128);
        let q0: u64 = (t0 / 10) as u64;
        let r0: u64 = (t0 % 10) as u64;
        let q = U256 { limbs: [q0, q1, q2, q3] };
        assert(self@ == q@ * 10 + r0);
        (q, r0 as u8)
    }

    /// Appends one decimal digit: ten times this integer plus `digit`, or
    /// `None` where that does not fit in 256 bits.
    pub fn mul_10_add(&self, digit: u8) -> (r: Option<U256>)
        ensures
            match r {
                Some(v) => v@ == self@ * 10 + digit,
                None => self@ * 10 + digit >= pow2_256(),
            },
    {
        let t0: u128 = (self.limbs[0] as u128) * 10 + (digit as u128);
        let low0: u64 = (t0 % 0x1_0000_0000_0000_0000u128) as u64;
        let c0: u128 = t0 / 0x1_0000_0000_0000_0000u128;
        let t1: u128 = (self.limbs[1] as u128) * 10 + c0;
        let low1: u64 = (t1 % 0x1_0000_0000_0000_0000u128) as u64;
        let c1: u128 = t1 / 0x1_0000_0000_0000_0000u128;
        let t2: u128 = (self.limbs[2] as u128) * 10 + c1;
        let low2: u64 = (t2 % 0x1_0000_0000_0000_0000u128) as u64;
        let c2: u128 = t2 / 0x1_0000_0000_0000_0000u128;
        let t3: u128 = (self.limbs[3] as u128) * 10 + c2;
        let low3: u64 = (t3 % 0x1_0000_0000_0000_0000u128) as u64;
        let c3: u128 = t3 / 0x1_0000_0000_0000_0000u128;
        let v = U256 { limbs: [low0, low1, low2, low3] };
        assert(self@ * 10 + digit == v@ + c3 * pow2_256());
        if c3 == 0 {
            Some(v)
        } else {
            None
        }
    }
}

/// Two 256-bit integers that stand for the same number have the same limbs.
pub proof fn lemma_value_determines_limbs(a: U256, b: U256)
    ensures
        a@ == b@ <==> a == b,
{
    if a@ == b@ {
        assert(a.limbs[3] == b.limbs[3]);
        assert(a.limbs[2] == b.limbs[2]);
        assert(a.limbs[1] == b.limbs[1]);
        assert(a.limbs[0] == b.limbs[0]);
        assert(a.limbs@ =~= b.limbs@);
        assert(a.limbs == b.limbs);
    }
}

/// Every 256-bit integer stands for a number below two to the power 256.
pub proof fn lemma_value_bounded(a: U256)
    ensures
        a@ < pow2_256(),
{
}

} // verus!
