//! Fixed-size values exchanged with the host: account addresses, 256-bit hashes
//! and 256-bit unsigned integers.

use vstd::prelude::*;
use vstd::arithmetic::power::pow;
use crate::big_endian::{
    be_bytes, be_value, lemma_be_bytes_of_be_value, lemma_be_value_bound, lemma_be_value_concat,
    lemma_be_bytes_digits, lemma_be_value_digits, lemma_be_value_of_be_bytes,
    lemma_pow256_limb_sizes, lemma_pow256_monotone, pow256,
};

verus! {

/// A 160-bit account address, stored as its 20 bytes.
#[derive(Clone, Copy, Debug, PartialEq, Eq)]
pub struct Address(pub [u8; 20]);

impl Address {
    /// The all-zero address.
    pub fn zero() -> (out: Address)
        ensures
            forall|i: int| 0 <= i < 20 ==> out.0[i] == 0u8,
    {
        Address([0u8; 20])
    }
}

/// A 256-bit hash (a storage key, a log topic, a block hash), stored as its 32 bytes.
#[derive(Clone, Copy, Debug, PartialEq, Eq)]
pub struct H256(pub [u8; 32]);

impl H256 {
    /// The all-zero hash.
    pub fn zero() -> (out: H256)
        ensures
            forall|i: int| 0 <= i < 32 ==> out.0[i] == 0u8,
    {
        H256([0u8; 32])
    }
}

/// The number held by four 64-bit limbs, least significant limb first.
pub open spec fn limbs_value(l0: u64, l1: u64, l2: u64, l3: u64) -> nat {
    l0 as nat + l1 as nat * 0x1_0000_0000_0000_0000nat
        + l2 as nat * 0x1_0000_0000_0000_0000_0000_0000_0000_0000nat
        + l3 as nat * 0x1_0000_0000_0000_0000_0000_0000_0000_0000_0000_0000_0000_0000nat
}

/// A 256-bit unsigned integer, stored as four 64-bit limbs, least significant limb first.
#[derive(Clone, Copy, Debug, PartialEq, Eq)]
pub struct U256(pub [u64; 4]);

impl View for U256 {
    type V = nat;

    /// The number the limbs hold.
    open spec fn view(&self) -> nat {
        limbs_value(self.0[0], self.0[1], self.0[2], self.0[3])
    }
}

/// The `n` lowest base-256 digits of `x`, most significant first.
fn limb_be_bytes(x: u64, n: usize) -> (out: Vec<u8>)
    ensures
        out@ == be_bytes(x as nat, n as nat),
    decreases n,
{
    if n == 0 {
        Vec::new()
    } else {
        let mut out = limb_be_bytes(x / 256, n - 1);
        out.push((x % 256) as u8);
        out
    }
}

impl U256 {
    /// The 32 big-endian bytes of this number.
    pub fn to_big_endian(&self) -> (out: [u8; 32])
        ensures
            out@ == be_bytes(self@, 32),
            forall|i: int|
                0 <= i < 32 ==> #[trigger] out@[i] as int == (self@ as int / pow(
                    256,
                    (31 - i) as nat,
                )) % 256,
    {
        let l0 = self.0[0];
        let l1 = self.0[1];
        let l2 = self.0[2];
        let l3 = self.0[3];
        let mut v = limb_be_bytes(l3, 8);
        let mut w2 = limb_be_bytes(l2, 8);
        let mut w1 = limb_be_bytes(l1, 8);
        let mut w0 = limb_be_bytes(l0, 8);
        let ghost a = v@;
        let ghost b = w2@;
        let ghost c = w1@;
        let ghost d = w0@;
        v.append(&mut w2);
        v.append(&mut w1);
        v.append(&mut w0);
        proof {
            lemma_pow256_limb_sizes();
            crate::big_endian::lemma_be_bytes_len(l3 as nat, 8);
            crate::big_endian::lemma_be_bytes_len(l2 as nat, 8);
            crate::big_endian::lemma_be_bytes_len(l1 as nat, 8);
            crate::big_endian::lemma_be_bytes_len(l0 as nat, 8);
            lemma_be_value_of_be_bytes(l3 as nat, 8);
            lemma_be_value_of_be_bytes(l2 as nat, 8);
            lemma_be_value_of_be_bytes(l1 as nat, 8);
            lemma_be_value_of_be_bytes(l0 as nat, 8);
            lemma_be_value_concat(a, b);
            lemma_be_value_concat(a + b, c);
            lemma_be_value_concat(a + b + c, d);
            assert(v@ == a + b + c + d);
            assert(be_value(v@) == self@);
            lemma_be_bytes_of_be_value(v@);
        }
        let mut out = [0u8; 32];
        let mut i: usize = 0;
        while i < 32
            invariant
                0 <= i <= 32,
                v@.len() == 32,
                forall|j: int| 0 <= j < i ==> out@[j] == v@[j],
            decreases 32 - i,
        {
            out[i] = v[i];
            i = i + 1;
        }
        assert(out@ =~= v@);
        proof {
            lemma_be_bytes_digits(self@, 32);
        }
        out
    }

    /// The number written by at most 32 big-endian bytes.
    pub fn from_big_endian(bytes: &[u8]) -> (out: U256)
        requires
            bytes@.len() <= 32,
        ensures
            out@ == be_value(bytes@),
            out@ < pow(256, bytes@.len()),
            forall|i: int|
                0 <= i < bytes@.len() ==> #[trigger] bytes@[i] as int == (out@ as int / pow(
                    256,
                    (bytes@.len() - 1 - i) as nat,
                )) % 256,
    {
        let mut l0: u64 = 0;
        let mut l1: u64 = 0;
        let mut l2: u64 = 0;
        let mut l3: u64 = 0;
        let mut i: usize = 0;
        assert(bytes@.take(0) =~= Seq::<u8>::empty());
        while i < bytes.len()
            invariant
                i <= bytes@.len() <= 32,
                limbs_value(l0, l1, l2, l3) == be_value(bytes@.take(i as int)),
            decreases bytes@.len() - i,
        {
            proof {
                lemma_be_value_bound(bytes@.take(i as int));
                lemma_pow256_monotone(i as nat, 31);
                lemma_pow256_limb_sizes();
            }
            let b = bytes[i];
            let c0 = l0 / 0x100_0000_0000_0000;
            let c1 = l1 / 0x100_0000_0000_0000;
            let c2 = l2 / 0x100_0000_0000_0000;
            assert(l3 < 0x100_0000_0000_0000);
            let ghost before = limbs_value(l0, l1, l2, l3);
            l3 = l3 * 256 + c2;
            l2 = (l2 % 0x100_0000_0000_0000) * 256 + c1;
            l1 = (l1 % 0x100_0000_0000_0000) * 256 + c0;
            l0 = (l0 % 0x100_0000_0000_0000) * 256 + b as u64;
            assert(limbs_value(l0, l1, l2, l3) == before * 256 + b);
            assert(bytes@.take(i + 1).drop_last() =~= bytes@.take(i as int));
            i = i + 1;
        }
        assert(bytes@.take(i as int) =~= bytes@);
        proof {
            lemma_be_value_digits(bytes@);
        }
        U256([l0, l1, l2, l3])
    }
}

/// Two numbers are equal exactly when their limbs are: a `U256` is determined by its value.
pub proof fn lemma_u256_view_injective(a: U256, b: U256)
    requires
        a@ == b@,
    ensures
        a == b,
{
    let (a0, a1, a2, a3) = (a.0[0] as int, a.0[1] as int, a.0[2] as int, a.0[3] as int);
    let (b0, b1, b2, b3) = (b.0[0] as int, b.0[1] as int, b.0[2] as int, b.0[3] as int);
    let m: int = 0x1_0000_0000_0000_0000;
    assert(a0 == b0 && a1 == b1 && a2 == b2 && a3 == b3) by (nonlinear_arith)
        requires
            0 <= a0 < m, 0 <= a1 < m, 0 <= a2 < m, 0 <= a3 < m,
            0 <= b0 < m, 0 <= b1 < m, 0 <= b2 < m, 0 <= b3 < m,
            m == 0x1_0000_0000_0000_0000,
            a0 + m * (a1 + m * (a2 + m * a3)) == b0 + m * (b1 + m * (b2 + m * b3)),
    {
        assert(a0 == b0);
        assert(a1 + m * (a2 + m * a3) == b1 + m * (b2 + m * b3));
        assert(a1 == b1);
        assert(a2 + m * a3 == b2 + m * b3);
    }
    assert(a.0 =~= b.0);
}

/// Every `U256` is below `2^256`, so its 32 big-endian bytes read back as its value:
/// `from_big_endian(&x.to_big_endian())` is `x`.
pub proof fn lemma_u256_encode_decode(x: U256)
    ensures
        x@ < pow256(32),
        be_value(be_bytes(x@, 32)) == x@,
{
    lemma_pow256_limb_sizes();
    lemma_be_value_of_be_bytes(x@, 32);
}

/// Decoding the big-endian bytes of `x` gives `x` itself back: any `y` whose value is
/// the value of `x`'s encoding is `x`.
pub proof fn lemma_u256_round_trip(x: U256, y: U256)
    requires
        y@ == be_value(be_bytes(x@, 32)),
    ensures
        y == x,
{
    lemma_u256_encode_decode(x);
    lemma_u256_view_injective(x, y);
}

/// Any 32 bytes read as a number and written back give the same bytes:
/// `U256::from_big_endian(&b).to_big_endian()` is `b`.
pub proof fn lemma_u256_decode_encode(s: Seq<u8>)
    requires
        s.len() == 32,
    ensures
        be_value(s) < pow256(32),
        be_bytes(be_value(s), 32) == s,
{
    lemma_be_value_bound(s);
    lemma_be_bytes_of_be_value(s);
}

} // verus!
