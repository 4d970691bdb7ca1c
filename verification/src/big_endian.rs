//! Big-endian base-256 numerals: the byte order in which the host passes
//! 256-bit quantities.

use vstd::prelude::*;
use vstd::arithmetic::div_mod::lemma_div_denominator;
use vstd::arithmetic::power::pow;

verus! {

/// `256` raised to the power `n`.
pub open spec fn pow256(n: nat) -> nat
    decreases n,
{
    if n == 0 {
        1
    } else {
        256 * pow256((n - 1) as nat)
    }
}

/// The number that the bytes `s` write, most significant byte first.
pub open spec fn be_value(s: Seq<u8>) -> nat
    decreases s.len(),
{
    if s.len() == 0 {
        0
    } else {
        be_value(s.drop_last()) * 256 + s.last() as nat
    }
}

/// The `n` lowest base-256 digits of `v`, most significant first.
pub open spec fn be_bytes(v: nat, n: nat) -> Seq<u8>
    decreases n,
{
    if n == 0 {
        Seq::empty()
    } else {
        be_bytes(v / 256, (n - 1) as nat).push((v % 256) as u8)
    }
}

/// `pow256` is positive and grows with its exponent.
pub proof fn lemma_pow256_monotone(a: nat, b: nat)
    requires
        a <= b,
    ensures
        0 < pow256(a) <= pow256(b),
    decreases b,
{
    if b > a {
        lemma_pow256_monotone(a, (b - 1) as nat);
    } else if a > 0 {
        lemma_pow256_monotone((a - 1) as nat, (a - 1) as nat);
    }
}

/// The powers of 256 that 64-bit limbs and 256-bit numbers need.
pub proof fn lemma_pow256_limb_sizes()
    ensures
        pow256(8) == 0x1_0000_0000_0000_0000nat,
        pow256(31) == 0x100_0000_0000_0000_0000_0000_0000_0000_0000_0000_0000_0000_0000_0000_0000_0000nat,
        pow256(32) == 0x1_0000_0000_0000_0000_0000_0000_0000_0000_0000_0000_0000_0000_0000_0000_0000_0000nat,
{
    reveal_with_fuel(pow256, 33);
}

/// An encoding has exactly the requested number of bytes.
pub proof fn lemma_be_bytes_len(v: nat, n: nat)
    ensures
        be_bytes(v, n).len() == n,
    decreases n,
{
    if n > 0 {
        lemma_be_bytes_len(v / 256, (n - 1) as nat);
    }
}

/// `n` bytes write a number below `256^n`.
pub proof fn lemma_be_value_bound(s: Seq<u8>)
    ensures
        be_value(s) < pow256(s.len()),
    decreases s.len(),
{
    if s.len() > 0 {
        lemma_be_value_bound(s.drop_last());
        let p = pow256((s.len() - 1) as nat);
        let r = be_value(s.drop_last());
        assert(r * 256 + s.last() < p * 256) by (nonlinear_arith)
            requires
                r < p,
                s.last() < 256,
        ;
    }
}

/// Reading back an encoding of a number that fits gives the number.
pub proof fn lemma_be_value_of_be_bytes(v: nat, n: nat)
    requires
        v < pow256(n),
    ensures
        be_value(be_bytes(v, n)) == v,
    decreases n,
{
    if n > 0 {
        let p = pow256((n - 1) as nat);
        assert(v / 256 < p) by (nonlinear_arith)
            requires
                v < 256 * p,
        ;
        lemma_be_value_of_be_bytes(v / 256, (n - 1) as nat);
        let s = be_bytes(v, n);
        assert(s.drop_last() =~= be_bytes(v / 256, (n - 1) as nat));
    } else {
        assert(v == 0);
    }
}

/// Encoding the number that some bytes write, with as many bytes, gives those bytes back.
pub proof fn lemma_be_bytes_of_be_value(s: Seq<u8>)
    ensures
        be_bytes(be_value(s), s.len()) == s,
    decreases s.len(),
{
    if s.len() > 0 {
        let r = be_value(s.drop_last());
        let v = be_value(s);
        assert(v / 256 == r && v % 256 == s.last()) by (nonlinear_arith)
            requires
                v == r * 256 + s.last(),
                s.last() < 256,
        ;
        lemma_be_bytes_of_be_value(s.drop_last());
        assert(s.drop_last().push(s.last()) =~= s);
    } else {
        assert(s =~= Seq::<u8>::empty());
    }
}

/// The bytes `a` followed by the bytes `b` write `a`'s number shifted past `b`, plus `b`'s.
pub proof fn lemma_be_value_concat(a: Seq<u8>, b: Seq<u8>)
    ensures
        be_value(a + b) == be_value(a) * pow256(b.len()) + be_value(b),
    decreases b.len(),
{
    if b.len() == 0 {
        assert(a + b =~= a);
        assert(pow256(0) == 1);
        assert(be_value(b) == 0);
    } else {
        let bl = b.drop_last();
        lemma_be_value_concat(a, bl);
        assert((a + b).drop_last() =~= a + bl);
        assert((a + b).last() == b.last());
        let x = be_value(a);
        let p = pow256(bl.len());
        let y = be_value(bl);
        assert((x * p + y) * 256 + b.last() == x * (256 * p) + (y * 256 + b.last()))
            by (nonlinear_arith);
        assert(pow256(b.len()) == 256 * p);
        assert(be_value(b) == y * 256 + b.last());
        assert(be_value(a + b) == be_value(a + bl) * 256 + b.last());
    }
}

/// `pow256` is the ordinary power of 256.
pub proof fn lemma_pow256_is_pow(n: nat)
    ensures
        pow256(n) == pow(256, n),
    decreases n,
{
    reveal(pow);
    if n > 0 {
        lemma_pow256_is_pow((n - 1) as nat);
    }
}

/// Digit `i` of the `n`-digit encoding of `v` is `v`'s base-256 digit of weight `256^(n-1-i)`.
proof fn lemma_be_bytes_digit(v: nat, n: nat, i: int)
    requires
        0 <= i < n,
    ensures
        be_bytes(v, n)[i] as int == (v as int / pow256((n - 1 - i) as nat) as int) % 256,
    decreases n,
{
    let t = be_bytes(v / 256, (n - 1) as nat);
    lemma_be_bytes_len(v / 256, (n - 1) as nat);
    assert(be_bytes(v, n) == t.push((v % 256) as u8));
    if i == n - 1 {
        assert(pow256(0) == 1);
        assert(be_bytes(v, n)[i] == (v % 256) as u8);
        assert(v as int / 1 == v as int);
    } else {
        let m = (n - 2 - i) as nat;
        lemma_be_bytes_digit(v / 256, (n - 1) as nat, i);
        lemma_pow256_monotone(0, m);
        lemma_div_denominator(v as int, 256, pow256(m) as int);
        assert(pow256((n - 1 - i) as nat) == 256 * pow256(m));
        assert(be_bytes(v, n)[i] == t[i]);
        let p = pow256(m) as int;
        assert(((v / 256) as int) == (v as int) / 256);
        assert(t[i] as int == ((v as int / 256) / p) % 256);
        assert((v as int / 256) / p == v as int / (256 * p));
    }
}

/// The `n`-byte big-endian encoding of `v` has `n` bytes, and byte `i` is the base-256
/// digit of `v` of weight `256^(n-1-i)`: the most significant digit comes first.
pub proof fn lemma_be_bytes_digits(v: nat, n: nat)
    ensures
        be_bytes(v, n).len() == n,
        forall|i: int|
            0 <= i < n ==> #[trigger] be_bytes(v, n)[i] as int == (v as int / pow(
                256,
                (n - 1 - i) as nat,
            )) % 256,
{
    lemma_be_bytes_len(v, n);
    assert forall|i: int| 0 <= i < n implies #[trigger] be_bytes(v, n)[i] as int == (v as int
        / pow(256, (n - 1 - i) as nat)) % 256 by {
        lemma_be_bytes_digit(v, n, i);
        lemma_pow256_is_pow((n - 1 - i) as nat);
    }
}

/// The number that bytes write is below `256^len`, and each byte is its base-256 digit
/// of weight `256^(len-1-i)`: the first byte is the most significant.
pub proof fn lemma_be_value_digits(s: Seq<u8>)
    ensures
        be_value(s) < pow(256, s.len()),
        forall|i: int|
            0 <= i < s.len() ==> #[trigger] s[i] as int == (be_value(s) as int / pow(
                256,
                (s.len() - 1 - i) as nat,
            )) % 256,
{
    lemma_be_value_bound(s);
    lemma_pow256_is_pow(s.len());
    lemma_be_bytes_of_be_value(s);
    lemma_be_bytes_digits(be_value(s), s.len());
}

} // verus!
