//! Little-endian integer encoding of 1, 2, 4 or 8 bytes.

use vstd::prelude::*;
use vstd::arithmetic::div_mod::{lemma_mod_breakdown, lemma_div_denominator, lemma_div_pos_is_pos};
use vstd::arithmetic::mul::lemma_mul_strictly_positive;

verus! {

/// `256` raised to the power `n`.
pub open spec fn pow256(n: nat) -> nat
    decreases n,
{
    if n == 0 {
        1
    } else {
        256 * pow256((n - 1) as nat)
    }
}

/// The number that a little-endian byte sequence encodes.
pub open spec fn le_value(s: Seq<u8>) -> nat
    decreases s.len(),
{
    if s.len() == 0 {
        0
    } else {
        s[0] as nat + 256 * le_value(s.drop_first())
    }
}

/// The `nr` low-order bytes of `val`, least significant first.
pub open spec fn le_bytes(val: nat, nr: nat) -> Seq<u8> {
    Seq::new(nr, |k: int| ((val / pow256(k as nat)) % 256) as u8)
}

/// The widths that the encoding supports.
pub open spec fn is_width(nr: nat) -> bool {
    nr == 1 || nr == 2 || nr == 4 || nr == 8
}

/// Powers of 256 are positive.
pub proof fn lemma_pow256_positive(n: nat)
    ensures
        pow256(n) > 0,
    decreases n,
{
    if n > 0 {
        lemma_pow256_positive((n - 1) as nat);
    }
}

/// The powers of 256 of the supported widths.
pub proof fn lemma_pow256_values()
    ensures
        pow256(1) == 0x100,
        pow256(2) == 0x1_0000,
        pow256(4) == 0x1_0000_0000,
        pow256(8) == 0x1_0000_0000_0000_0000,
{
    reveal_with_fuel(pow256, 9);
}

/// A byte sequence of length `n` encodes a number below `256^n`.
pub proof fn lemma_le_value_bound(s: Seq<u8>)
    ensures
        le_value(s) < pow256(s.len()),
    decreases s.len(),
{
    if s.len() > 0 {
        lemma_le_value_bound(s.drop_first());
        assert(pow256(s.len()) == 256 * pow256((s.len() - 1) as nat));
    }
}

/// Dropping the lowest byte of an encoding is the encoding of the quotient by 256.
proof fn lemma_le_bytes_drop_first(val: nat, nr: nat)
    requires
        nr > 0,
    ensures
        le_bytes(val, nr).drop_first() =~= le_bytes(val / 256, (nr - 1) as nat),
{
    assert forall|k: int| 0 <= k < nr - 1 implies #[trigger] le_bytes(val, nr).drop_first()[k]
        == le_bytes(val / 256, (nr - 1) as nat)[k] by {
        lemma_pow256_positive(k as nat);
        lemma_div_denominator(val as int, 256, pow256(k as nat) as int);
        assert(pow256((k + 1) as nat) == 256 * pow256(k as nat));
    }
}

/// Decoding the `nr` low-order bytes of `val` gives `val` modulo `256^nr`.
pub proof fn lemma_le_roundtrip(val: nat, nr: nat)
    ensures
        le_value(le_bytes(val, nr)) == val % pow256(nr),
    decreases nr,
{
    if nr == 0 {
        assert(le_bytes(val, nr) =~= Seq::<u8>::empty());
    } else {
        lemma_le_bytes_drop_first(val, nr);
        lemma_le_roundtrip(val / 256, (nr - 1) as nat);
        lemma_pow256_positive((nr - 1) as nat);
        lemma_mod_breakdown(val as int, 256, pow256((nr - 1) as nat) as int);
        assert(pow256(0) == 1);
        assert(val / 1 == val);
        assert(le_bytes(val, nr)[0] == val % 256);
    }
}

/// Reads an unsigned little-endian integer of `nr` bytes from the front of `bytes`.
pub fn from_le(bytes: &[u8], nr: usize) -> (r: u64)
    requires
        is_width(nr as nat),
        bytes@.len() >= nr,
    ensures
        r == le_value(bytes@.take(nr as int)),
{
    proof {
        lemma_pow256_values();
    }
    let mut acc: u64 = 0;
    let mut i: usize = nr;
    while i > 0
        invariant
            0 <= i <= nr,
            nr <= 8,
            is_width(nr as nat),
            bytes@.len() >= nr,
            pow256(8) == 0x1_0000_0000_0000_0000,
            acc == le_value(bytes@.subrange(i as int, nr as int)),
        decreases i,
    {
        let ghost tail = bytes@.subrange(i as int, nr as int);
        proof {
            lemma_le_value_bound(tail);
            lemma_pow256_monotone(tail.len(), 7);
            assert(bytes@.subrange(i - 1, nr as int).drop_first() =~= tail);
        }
        i = i - 1;
        acc = acc * 256 + bytes[i] as u64;
    }
    assert(bytes@.subrange(0, nr as int) =~= bytes@.take(nr as int));
    acc
}

proof fn lemma_pow256_monotone(a: nat, b: nat)
    requires
        a <= b,
    ensures
        pow256(a) <= pow256(b),
    decreases b,
{
    if a < b {
        lemma_pow256_monotone(a, (b - 1) as nat);
        lemma_pow256_positive((b - 1) as nat);
    }
}

/// Appends the `nr` low-order bytes of `val` to `bytes`, least significant first.
pub fn to_le(bytes: &mut Vec<u8>, nr: usize, val: u64)
    requires
        is_width(nr as nat),
    ensures
        final(bytes)@ == old(bytes)@ + le_bytes(val as nat, nr as nat),
{
    let mut v: u64 = val;
    let mut i: usize = 0;
    assert(pow256(0) == 1);
    assert(val as nat / 1 == val);
    assert(bytes@ =~= old(bytes)@ + le_bytes(val as nat, 0));
    while i < nr
        invariant
            0 <= i <= nr,
            nr <= 8,
            v == val as nat / pow256(i as nat),
            bytes@ == old(bytes)@ + le_bytes(val as nat, i as nat),
        decreases nr - i,
    {
        proof {
            lemma_pow256_positive(i as nat);
            lemma_div_denominator(val as int, pow256(i as nat) as int, 256);
            assert(pow256((i + 1) as nat) == 256 * pow256(i as nat));
            assert(pow256(i as nat) * 256 == 256 * pow256(i as nat)) by (nonlinear_arith);
        }
        bytes.push((v % 256) as u8);
        v = v / 256;
        i = i + 1;
        assert(bytes@ =~= old(bytes)@ + le_bytes(val as nat, i as nat));
    }
}

/// The encoding is little-endian: a byte added at the end is the most
/// significant one.
pub proof fn lemma_le_value_push(s: Seq<u8>, b: u8)
    ensures
        le_value(s.push(b)) == le_value(s) + b * pow256(s.len()),
    decreases s.len(),
{
    if s.len() == 0 {
        assert(s.push(b).drop_first() =~= Seq::<u8>::empty());
        assert(le_value(Seq::<u8>::empty()) == 0);
        assert(pow256(0) == 1);
        assert(le_value(s.push(b)) == s.push(b)[0] as nat + 256 * le_value(s.push(b).drop_first()));
    } else {
        assert(s.push(b).drop_first() =~= s.drop_first().push(b));
        lemma_le_value_push(s.drop_first(), b);
        let x = pow256((s.len() - 1) as nat);
        assert(256 * (le_value(s.drop_first()) + b * x) == 256 * le_value(s.drop_first()) + b * (256 * x))
            by (nonlinear_arith);
        assert(pow256(s.len()) == 256 * x);
        assert(s.push(b)[0] == s[0]);
        assert(le_value(s.push(b)) == s[0] as nat + 256 * le_value(s.drop_first().push(b)));
        assert(le_value(s) == s[0] as nat + 256 * le_value(s.drop_first()));
    }
}

} // verus!
