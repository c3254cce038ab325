//! Arithmetic on `u32` made of bitwise operations only: addition,
//! multiplication, and the Gray code.

use vstd::prelude::*;

verus! {

/// The number of values of a `u32`: results wrap around modulo this.
pub open spec fn modulus() -> int {
    0x1_0000_0000
}

/// Adds two numbers with `&`, `^` and `<<` only.
///
/// Overflow wraps, as `u32::wrapping_add` does.
pub fn adder(a: u32, b: u32) -> (sum: u32)
    ensures
        sum == (a + b) % modulus(),
{
    let ghost (a0, b0) = (a, b);
    let mut a = a;
    let mut b = b;
    // The low `shifted` bits of `b` are zero: each round pushes the carry one
    // bit further left, so after 32 rounds nothing of it is left.
    let ghost mut shifted: u64 = 0;
    assert(((b as u64) >> 0u64) << 0u64 == b as u64) by (bit_vector);
    while b != 0
        invariant
            (a + b) % modulus() == (a0 + b0) % modulus(),
            shifted <= 32,
            ((b as u64) >> shifted) << shifted == b as u64,
        decreases 32 - shifted,
    {
        let ghost (a_before, b_before, k) = (a, b, shifted);
        assert(k < 32) by (bit_vector)
            requires
                k <= 32,
                ((b_before as u64) >> k) << k == b_before as u64,
                b_before != 0,
        ;
        let carry = a & b;
        a = a ^ b;
        b = carry << 1;
        assert(((a_before ^ b_before) + ((a_before & b_before) << 1u32)) % 0x1_0000_0000 == (
        a_before + b_before) % 0x1_0000_0000) by (bit_vector);
        assert(((((a_before & b_before) << 1u32) as u64) >> ((k + 1) as u64)) << ((k + 1) as u64)
            == ((a_before & b_before) << 1u32) as u64) by (bit_vector)
            requires
                k < 32,
                ((b_before as u64) >> k) << k == b_before as u64,
        ;
        proof {
            shifted = (shifted + 1) as u64;
        }
    }
    proof {
        vstd::arithmetic::div_mod::lemma_small_mod(a as nat, modulus() as nat);
    }
    a
}

/// One round of the shift-and-add multiplication keeps `result + x * y`
/// unchanged modulo 2^32: the low bit of `y` moves into `result`, and the
/// rest of `y` is halved while `x` doubles.
proof fn lemma_multiply_round(result: int, x: int, y: int, next_result: int, next_x: int)
    requires
        y >= 0,
        next_x == (2 * x) % modulus(),
        next_result == if y % 2 == 1 {
            (result + x) % modulus()
        } else {
            result
        },
    ensures
        (next_result + next_x * (y / 2)) % modulus() == (result + x * y) % modulus(),
{
    let m = modulus();
    let half = y / 2;
    assert(y == 2 * half + y % 2);
    assert((next_x * half) % m == (2 * x * half) % m) by {
        vstd::arithmetic::div_mod::lemma_mul_mod_noop_left(2 * x, half, m);
    }
    assert(2 * x * half == x * (2 * half)) by (nonlinear_arith);
    vstd::arithmetic::div_mod::lemma_add_mod_noop(next_result, next_x * half, m);
    vstd::arithmetic::div_mod::lemma_add_mod_noop(next_result, x * (2 * half), m);
    if y % 2 == 1 {
        assert(x * y == x * (2 * half) + x) by (nonlinear_arith)
            requires
                y == 2 * half + 1,
        ;
        vstd::arithmetic::div_mod::lemma_add_mod_noop(result + x, x * (2 * half), m);
        vstd::arithmetic::div_mod::lemma_mod_twice(result + x, m);
    } else {
        assert(x * y == x * (2 * half)) by (nonlinear_arith)
            requires
                y == 2 * half,
        ;
    }
}

/// Multiplies two numbers with bitwise operations and [`adder`] only.
///
/// Overflow wraps, as `u32::wrapping_mul` does.
pub fn multiplier(a: u32, b: u32) -> (product: u32)
    ensures
        product == (a * b) % modulus(),
{
    let mut result: u32 = 0;
    let mut x = a;
    let mut y = b;
    proof {
        vstd::arithmetic::div_mod::lemma_small_mod(0, modulus() as nat);
    }
    while y != 0
        invariant
            (result + x * y) % modulus() == (a * b) % modulus(),
        decreases y,
    {
        let ghost (r0, x0, y0) = (result, x, y);
        if y & 1 == 1 {
            result = adder(result, x);
        }
        x = x << 1;
        y = y >> 1;
        assert(y0 & 1u32 == y0 % 2) by (bit_vector);
        assert(y0 >> 1u32 == y0 / 2) by (bit_vector);
        assert((x0 << 1u32) == (2 * x0) % 0x1_0000_0000) by (bit_vector);
        proof {
            lemma_multiply_round(r0 as int, x0 as int, y0 as int, result as int, x as int);
        }
    }
    proof {
        vstd::arithmetic::div_mod::lemma_small_mod(result as nat, modulus() as nat);
    }
    result
}

/// The Gray code of `n`: the codes of two successive numbers differ by one
/// bit only.
pub fn gray_code(n: u32) -> (code: u32)
    ensures
        code == n ^ (n >> 1),
{
    n ^ (n >> 1)
}

/// A number with exactly one bit set.
pub open spec fn is_single_bit(d: u32) -> bool {
    d != 0 && d & ((d - 1) as u32) == 0
}

/// The Gray codes of two successive numbers differ in exactly one bit.
pub proof fn lemma_gray_code_successors_differ_by_one_bit(n: u32)
    requires
        n < u32::MAX,
    ensures
        is_single_bit((n ^ (n >> 1)) ^ (((n + 1) as u32) ^ (((n + 1) as u32) >> 1))),
{
    assert(is_single_bit((n ^ (n >> 1)) ^ (((n + 1) as u32) ^ (((n + 1) as u32) >> 1))))
        by (bit_vector)
        requires
            n < 0xffff_ffffu32,
    ;
}

} // verus!
