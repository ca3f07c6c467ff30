//! Basis states and their bits. Basis state `i` of a register of `q`
//! qubits assigns qubit `t` the value of bit `t` of `i`, bit zero being the
//! least significant.

use vstd::prelude::*;
use vstd::arithmetic::power2::pow2;
use vstd::bits::lemma_usize_shl_is_mul;

verus! {

/// The largest register the simulator builds gates for.
pub const MAX_QUBITS: u32 = 10;

/// Bit `t` of `i` is one.
pub open spec fn has_bit(i: usize, t: usize) -> bool {
    i & (1usize << t) != 0
}

/// `i` with bit `t` inverted.
pub open spec fn flip_bit(i: usize, t: usize) -> usize {
    i ^ (1usize << t)
}

/// Inverting a bit of a basis state gives another basis state of the same
/// register, inverts that bit, and is undone by inverting it again.
pub proof fn lemma_flip_bit(i: usize, t: usize, q: usize)
    by (bit_vector)
    requires
        t < q,
        q <= 10,
        i < (1usize << q),
    ensures
        flip_bit(i, t) < (1usize << q),
        flip_bit(flip_bit(i, t), t) == i,
        flip_bit(i, t) != i,
        has_bit(flip_bit(i, t), t) == !has_bit(i, t),
{
}

/// Inverting one bit leaves every other bit as it was.
pub proof fn lemma_flip_keeps_other_bits(i: usize, t: usize, c: usize)
    by (bit_vector)
    requires
        t <= 10,
        c <= 10,
        c != t,
    ensures
        has_bit(flip_bit(i, t), c) == has_bit(i, c),
{
}

/// The number of basis states of a register: `2^num_qubits`.
pub fn dimension(num_qubits: u32) -> (n: usize)
    requires
        num_qubits <= MAX_QUBITS,
    ensures
        n == pow2(num_qubits as nat),
        n == (1usize << (num_qubits as usize)),
        1 <= n <= 1024,
{
    proof {
        vstd::arithmetic::power2::lemma2_to64();
        if num_qubits < 10 {
            vstd::arithmetic::power2::lemma_pow2_strictly_increases(num_qubits as nat, 10);
        }
        vstd::arithmetic::power2::lemma_pow2_pos(num_qubits as nat);
        lemma_usize_shl_is_mul(1usize, num_qubits as usize);
    }
    1usize << (num_qubits as usize)
}

/// Tells whether bit `t` of `i` is one.
pub fn bit_is_set(i: usize, t: u32) -> (b: bool)
    requires
        t <= MAX_QUBITS,
    ensures
        b == has_bit(i, t as usize),
{
    i & (1usize << (t as usize)) != 0
}

/// `i` with bit `t` inverted.
pub fn with_bit_flipped(i: usize, t: u32) -> (r: usize)
    requires
        t <= MAX_QUBITS,
    ensures
        r == flip_bit(i, t as usize),
{
    i ^ (1usize << (t as usize))
}

} // verus!
