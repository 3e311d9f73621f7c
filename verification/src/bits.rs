//! Facts about XOR and shifts on `u32` that the proofs of the library share.

use vstd::prelude::*;

verus! {

/// XOR is a commutative group operation with unit zero, in which every element is
/// its own inverse.
pub proof fn lemma_xor(x: u32, y: u32, z: u32)
    by (bit_vector)
    ensures
        x ^ x == 0,
        x ^ 0 == x,
        0 ^ x == x,
        x ^ y == y ^ x,
        (x ^ y) ^ y == x,
        (y ^ x) ^ y == x,
        x ^ (x ^ y) == y,
        (x ^ y) ^ z == x ^ (y ^ z),
        (x ^ y) ^ z == (x ^ z) ^ y,
        x & 0 == 0,
        x & 1 == 0 || x & 1 == 1,
{
}

/// What one more shift by one place does, and what a shift of one is.
pub proof fn lemma_shift(x: u32, i: u32)
    by (bit_vector)
    requires
        i < 32,
    ensures
        x >> 0 == x,
        x << 0 == x,
        i < 31 ==> (x >> i) >> 1 == x >> ((i + 1) as u32),
        i < 31 ==> (x << i) << 1 == x << ((i + 1) as u32),
        i == 31 ==> (x >> i) >> 1 == 0,
        (x >> i) & 1 == 0 || (x >> i) & 1 == 1,
        1 <= (1u32 << i) <= 0x8000_0000u32,
        i >= 1 ==> 2 <= (1u32 << i),
        1 <= i <= 5 ==> 1 <= (1u32 << i) - 1 <= 31,
        x != 0 ==> x >> 1 < x,
        x == 0 ==> x >> 1 == 0 && x & 1 == 0 && x << i == 0,
        x & 1 == 1 ==> x == 2 * (x >> 1) + 1,
        x & 1 != 1 ==> x == 2 * (x >> 1),
        x < 32 ==> x ^ 31 == 31 - x,
        x == 32 ==> x ^ 31 == 63,
{
}

/// How the place of the leading one of `a` and of `b` decides the place of the
/// leading one of `a ^ b` and of `a << db`. The leading one of `a` is at `da` where
/// `a >> da == 1`, and below `da` where `a >> da == 0`.
pub proof fn lemma_leading_one(a: u32, b: u32, da: u32, db: u32)
    by (bit_vector)
    requires
        da < 32,
        db < 32,
    ensures
        a >> da == 1 ==> a != 0,
        a >> da == 1 ==> (a >> db == 0 <==> da < db),
        a >> da == 1 && a >> db == 1 ==> da == db,
        a == 0 ==> a >> db == 0,
        a >> da == 0 && b >> da == 0 ==> (a ^ b) >> da == 0,
        a >> db == 0 && b >> db == 1 ==> (a ^ b) >> db == 1,
        a >> da == 1 && b >> db == 1 && da < db ==> a < b,
        a >> da == 1 && da + db <= 31 ==> (a << db) >> ((da + db) as u32) == 1,
        a >> da == 1 && da + db <= 31 ==> (a << db) >> db == a,
        (a << db) >> db == a && b >> db == 0 ==> ((a << db) ^ b) >> db == a,
        (b >> da) & 1 == 1 && b >> db == 1 ==> da <= db,
        a ^ b == 0 ==> a == b,
        (1u32 << db) >> db == 1,
{
}

} // verus!
