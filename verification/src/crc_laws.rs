//! The CRC as polynomial arithmetic: the remainder of the message modulo the generator.
//!
//! Here a message is a sequence of bits and stands for a polynomial over the field of two
//! elements, its first bit for the highest power. Nothing of the shift register is used to say
//! what the CRC is.
use crate::chunk::{crc_of, crc_register, crc_shift, crc_shifts};
use vstd::prelude::*;

verus! {

/// The polynomial `d` times x plus the constant `b`, modulo the generator, where the highest of
/// the 32 bits stands for the highest power.
pub open spec fn times_x_plus(d: u32, b: bool) -> u32 {
    ((d << 1) | (if b {
        1u32
    } else {
        0u32
    })) ^ (if d & 0x8000_0000 != 0 {
        0x04C1_1DB7u32
    } else {
        0u32
    })
}

/// The remainder of a polynomial modulo the generator.
pub open spec fn remainder(bits: Seq<bool>) -> u32
    decreases bits.len(),
{
    if bits.len() == 0 {
        0
    } else {
        times_x_plus(remainder(bits.drop_last()), bits.last())
    }
}

/// The bits of a message, all eight of each byte, the lowest one first.
pub open spec fn bits_of(bytes: Seq<u8>) -> Seq<bool> {
    Seq::new(8 * bytes.len(), |i: int| (bytes[i / 8] as u32 >> ((i % 8) as u32)) & 1 == 1)
}

/// `n` zero bits.
pub open spec fn zeros(n: nat) -> Seq<bool> {
    Seq::new(n, |i: int| false)
}

/// `bits` with the first 32 of them inverted.
pub open spec fn start_inverted(bits: Seq<bool>) -> Seq<bool> {
    Seq::new(bits.len(), |i: int| if i < 32 { !bits[i] } else { bits[i] })
}

/// The CRC of a message is the remainder of the message, with 32 zero bits behind it and its
/// first 32 bits inverted, modulo x^32 + x^26 + x^23 + x^22 + x^16 + x^12 + x^11 + x^10 + x^8 +
/// x^7 + x^5 + x^4 + x^2 + x + 1. In the CRC the bits of the remainder stand in reverse order
/// and inverted.
pub proof fn law_crc_is_the_remainder(bytes: Seq<u8>)
    ensures
        ({
            let r = remainder(start_inverted(bits_of(bytes) + zeros(32)));
            forall|i: u32|
                i < 32 ==> #[trigger] (crc_of(0, bytes) >> i) & 1 == 1 - ((r >> ((31 - i) as u32))
                    & 1)
        }),
{
    let m = bits_of(bytes);
    let r = remainder(start_inverted(m + zeros(32)));
    let c = crc_register(0xFFFF_FFFF, bytes);
    lemma_register_runs(0xFFFF_FFFF, bytes);
    lemma_run_mirrors(0xFFFF_FFFF, m);
    assert(mirrored(0xFFFF_FFFF) == 0xFFFF_FFFF) by (bit_vector);
    lemma_divide_is_remainder(m);
    assert(r == mirrored(c));
    assert(!0u32 == 0xFFFF_FFFF) by (bit_vector);
    assert(crc_of(0, bytes) == !c);
    assert forall|i: u32| i < 32 implies #[trigger] (crc_of(0, bytes) >> i) & 1 == 1 - ((r >> ((31
        - i) as u32)) & 1) by {
        assert((!c >> i) & 1 == 1 - ((mirrored(c) >> ((31 - i) as u32)) & 1)) by (bit_vector)
            requires
                i < 32,
        ;
    }
}

/// The 32 bits of `x` in reverse order.
spec fn mirrored(x: u32) -> u32 {
    let a = ((x >> 1) & 0x5555_5555) | ((x & 0x5555_5555) << 1);
    let b = ((a >> 2) & 0x3333_3333) | ((a & 0x3333_3333) << 2);
    let c = ((b >> 4) & 0x0F0F_0F0F) | ((b & 0x0F0F_0F0F) << 4);
    let d = ((c >> 8) & 0x00FF_00FF) | ((c & 0x00FF_00FF) << 8);
    (d >> 16) | (d << 16)
}

/// A bit as a number.
spec fn low(b: bool) -> u32 {
    if b {
        1
    } else {
        0
    }
}

/// The register after it has taken in bits one by one.
spec fn run(c: u32, bits: Seq<bool>) -> u32
    decreases bits.len(),
{
    if bits.len() == 0 {
        c
    } else {
        crc_shift(run(c, bits.drop_last()) ^ low(bits.last()))
    }
}

/// The `k` lowest bits of `v`.
spec fn low_bits(v: u32, k: nat) -> Seq<bool> {
    Seq::new(k, |i: int| (v >> (i as u32)) & 1 == 1)
}

/// Runs one behind the other.
proof fn lemma_run_in_parts(c: u32, a: Seq<bool>, b: Seq<bool>)
    ensures
        run(c, a + b) == run(run(c, a), b),
    decreases b.len(),
{
    if b.len() == 0 {
        assert(a + b =~= a);
    } else {
        lemma_run_in_parts(c, a, b.drop_last());
        assert((a + b).drop_last() =~= a + b.drop_last());
    }
}

/// Shifting a register that has a value mixed in is taking in the value's bits.
proof fn lemma_shifts_run(c: u32, v: u32, k: nat)
    requires
        k <= 8,
    ensures
        crc_shifts(c ^ v, k) == run(c, low_bits(v, k)) ^ (v >> (k as u32)),
    decreases k,
{
    if k == 0 {
        assert(v >> 0 == v) by (bit_vector);
    } else {
        let j = (k - 1) as nat;
        lemma_shifts_run(c, v, j);
        let bits = low_bits(v, k);
        assert(bits.drop_last() =~= low_bits(v, j));
        let r = run(c, low_bits(v, j));
        let w = v >> (j as u32);
        let b = (v >> (j as u32)) & 1 == 1;
        assert(bits.last() == b);
        assert(low(b) == w & 1) by {
            assert(w & 1 == 0 || w & 1 == 1) by (bit_vector);
        }
        assert(crc_shift(r ^ w) == crc_shift(r ^ (w & 1)) ^ (w >> 1)) by (bit_vector);
        let n = j as u32;
        assert((v >> n) >> 1 == v >> ((n + 1) as u32)) by (bit_vector)
            requires
                n < 8,
        ;
    }
}

/// The register takes in a message bit by bit.
proof fn lemma_register_runs(c: u32, bytes: Seq<u8>)
    ensures
        crc_register(c, bytes) == run(c, bits_of(bytes)),
    decreases bytes.len(),
{
    if bytes.len() > 0 {
        let front = bytes.drop_last();
        let v = bytes.last() as u32;
        lemma_register_runs(c, front);
        assert(bits_of(bytes) =~= bits_of(front) + low_bits(v, 8));
        lemma_run_in_parts(c, bits_of(front), low_bits(v, 8));
        let r = crc_register(c, front);
        lemma_shifts_run(r, v, 8);
        let x = run(r, low_bits(v, 8));
        assert(v < 256);
        assert(x ^ (v >> 8) == x) by (bit_vector)
            requires
                v < 256,
        ;
    }
}

/// The division of a message bit by bit, with its zeros supplied in advance.
spec fn divide(d: u32, bits: Seq<bool>) -> u32
    decreases bits.len(),
{
    if bits.len() == 0 {
        d
    } else {
        times_x_plus(divide(d, bits.drop_last()) ^ (low(bits.last()) << 31), false)
    }
}

/// The register is the mirror image of the division.
proof fn lemma_run_mirrors(c: u32, bits: Seq<bool>)
    ensures
        mirrored(run(c, bits)) == divide(mirrored(c), bits),
    decreases bits.len(),
{
    if bits.len() > 0 {
        lemma_run_mirrors(c, bits.drop_last());
        let r = run(c, bits.drop_last());
        let b = low(bits.last());
        assert(mirrored(crc_shift(r ^ b)) == times_x_plus(mirrored(r) ^ (b << 31), false))
            by (bit_vector)
            requires
                b == 0 || b == 1,
        ;
    }
}

/// `d` times x^n modulo the generator.
spec fn times_x(d: u32, n: nat) -> u32
    decreases n,
{
    if n == 0 {
        d
    } else {
        times_x_plus(times_x(d, (n - 1) as nat), false)
    }
}

/// A sum is multiplied term by term.
proof fn lemma_times_x_adds(a: u32, b: u32, n: nat)
    ensures
        times_x(a ^ b, n) == times_x(a, n) ^ times_x(b, n),
    decreases n,
{
    if n > 0 {
        let m = (n - 1) as nat;
        lemma_times_x_adds(a, b, m);
        let (x, y) = (times_x(a, m), times_x(b, m));
        assert(times_x_plus(x ^ y, false) == times_x_plus(x, false) ^ times_x_plus(y, false))
            by (bit_vector);
    }
}

/// Multiplying by one power of x first or last is the same.
proof fn lemma_times_x_first(d: u32, n: nat)
    ensures
        times_x(times_x_plus(d, false), n) == times_x_plus(times_x(d, n), false),
    decreases n,
{
    if n > 0 {
        lemma_times_x_first(d, (n - 1) as nat);
    }
}

/// Powers of x below the generator's degree.
proof fn lemma_small_power(n: nat)
    requires
        n <= 31,
    ensures
        times_x(1, n) == 1u32 << (n as u32),
    decreases n,
{
    if n == 0 {
        assert(1u32 << 0 == 1) by (bit_vector);
    } else {
        lemma_small_power((n - 1) as nat);
        let m = (n - 1) as u32;
        assert(times_x_plus(1u32 << m, false) == 1u32 << ((m + 1) as u32)) by (bit_vector)
            requires
                m < 31,
        ;
    }
}

/// Zero stays zero.
proof fn lemma_times_x_zero(n: nat)
    ensures
        times_x(0, n) == 0,
    decreases n,
{
    if n > 0 {
        lemma_times_x_zero((n - 1) as nat);
        assert(times_x_plus(0, false) == 0) by (bit_vector);
    }
}

/// One bit of the message, with 32 zeros behind it.
proof fn lemma_divide_step(d: u32, b: bool)
    ensures
        times_x(times_x_plus(d, b), 32) == times_x_plus(times_x(d, 32) ^ (low(b) << 31), false),
{
    let l = low(b);
    let s = times_x_plus(d, false);
    assert(times_x_plus(d, b) == s ^ l) by {
        assert(times_x_plus(d, true) == times_x_plus(d, false) ^ 1) by (bit_vector);
        assert(s ^ 0 == s) by (bit_vector);
    }
    lemma_times_x_adds(s, l, 32);
    lemma_times_x_first(d, 32);
    lemma_small_power(31);
    lemma_times_x_zero(32);
    let e = times_x(d, 32);
    let g = times_x(l, 32);
    assert(g == times_x_plus(l << 31, false)) by {
        if b {
            assert(times_x(1, 32) == times_x_plus(times_x(1, 31), false));
        } else {
            assert(0u32 << 31 == 0) by (bit_vector);
            assert(times_x_plus(0, false) == 0) by (bit_vector);
        }
    }
    assert(times_x_plus(e, false) ^ times_x_plus(l << 31, false) == times_x_plus(
        e ^ (l << 31),
        false,
    )) by (bit_vector);
}

/// Zero bits behind a message multiply its remainder by powers of x.
proof fn lemma_remainder_with_zeros(bits: Seq<bool>, n: nat)
    ensures
        remainder(bits + zeros(n)) == times_x(remainder(bits), n),
    decreases n,
{
    if n == 0 {
        assert(bits + zeros(0) =~= bits);
    } else {
        lemma_remainder_with_zeros(bits, (n - 1) as nat);
        assert((bits + zeros(n)).drop_last() =~= bits + zeros((n - 1) as nat));
    }
}

/// Dividing from zero gives the remainder of the message with 32 zeros behind it.
proof fn lemma_divide_from_zero(bits: Seq<bool>)
    ensures
        divide(0, bits) == times_x(remainder(bits), 32),
    decreases bits.len(),
{
    if bits.len() == 0 {
        lemma_times_x_zero(32);
    } else {
        lemma_divide_from_zero(bits.drop_last());
        lemma_divide_step(remainder(bits.drop_last()), bits.last());
    }
}

/// What the register starts with takes part in the division like a sum.
proof fn lemma_divide_adds(d: u32, bits: Seq<bool>)
    ensures
        divide(d, bits) == divide(0, bits) ^ times_x(d, bits.len()),
    decreases bits.len(),
{
    if bits.len() == 0 {
        assert(0 ^ d == d) by (bit_vector);
    } else {
        lemma_divide_adds(d, bits.drop_last());
        let x = divide(0, bits.drop_last());
        let y = times_x(d, (bits.len() - 1) as nat);
        let b = low(bits.last()) << 31;
        assert(times_x_plus((x ^ y) ^ b, false) == times_x_plus(x ^ b, false) ^ times_x_plus(
            y,
            false,
        )) by (bit_vector);
    }
}

/// The sum of two polynomials.
spec fn sum(a: Seq<bool>, b: Seq<bool>) -> Seq<bool> {
    Seq::new(a.len(), |i: int| a[i] != b[i])
}

/// The remainder of a sum is the sum of the remainders.
proof fn lemma_remainder_adds(a: Seq<bool>, b: Seq<bool>)
    requires
        a.len() == b.len(),
    ensures
        remainder(sum(a, b)) == remainder(a) ^ remainder(b),
    decreases a.len(),
{
    if a.len() == 0 {
        assert(0u32 ^ 0 == 0) by (bit_vector);
    } else {
        lemma_remainder_adds(a.drop_last(), b.drop_last());
        assert(sum(a, b).drop_last() =~= sum(a.drop_last(), b.drop_last()));
        let (x, y) = (remainder(a.drop_last()), remainder(b.drop_last()));
        let (p, q) = (a.last(), b.last());
        let pq = p != q;
        assert(times_x_plus(x ^ y, pq) == times_x_plus(x, p) ^ times_x_plus(y, q))
            by (bit_vector)
            requires
                pq == (p != q),
        ;
    }
}

/// `n` one bits.
spec fn ones(n: nat) -> Seq<bool> {
    Seq::new(n, |i: int| true)
}

/// Up to 32 bits are their own remainder.
proof fn lemma_remainder_of_ones(n: nat)
    requires
        1 <= n <= 32,
    ensures
        remainder(ones(n)) == 0xFFFF_FFFFu32 >> ((32 - n) as u32),
    decreases n,
{
    assert(ones(n).drop_last() =~= ones((n - 1) as nat));
    if n == 1 {
        assert(remainder(ones(0)) == 0);
        assert(times_x_plus(0, true) == 0xFFFF_FFFFu32 >> 31) by (bit_vector);
    } else {
        lemma_remainder_of_ones((n - 1) as nat);
        let k = (n - 1) as u32;
        assert(times_x_plus(0xFFFF_FFFFu32 >> ((32 - k) as u32), true) == 0xFFFF_FFFFu32 >> ((31
            - k) as u32)) by (bit_vector)
            requires
                1 <= k <= 31,
        ;
    }
}

/// Dividing from all ones is inverting the first 32 bits.
proof fn lemma_divide_is_remainder(m: Seq<bool>)
    ensures
        divide(0xFFFF_FFFF, m) == remainder(start_inverted(m + zeros(32))),
{
    let all = m + zeros(32);
    let start = ones(32) + zeros(m.len());
    assert(start_inverted(all) =~= sum(all, start));
    lemma_remainder_adds(all, start);
    lemma_remainder_with_zeros(m, 32);
    lemma_remainder_with_zeros(ones(32), m.len());
    lemma_remainder_of_ones(32);
    assert(0xFFFF_FFFFu32 >> 0 == 0xFFFF_FFFF) by (bit_vector);
    lemma_divide_from_zero(m);
    lemma_divide_adds(0xFFFF_FFFF, m);
}

} // verus!
