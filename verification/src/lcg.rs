//! A multiplicative congruential generator and the table of bytes drawn from
//! it that shuffles the program counter.

use vstd::prelude::*;
use vstd::arithmetic::div_mod::lemma_mul_mod_noop_right;
use vstd::arithmetic::power::{lemma_pow1, pow};

verus! {

/// Where the table's draws start.
pub const SEED: u64 = 0xC0CAC01A;

/// The multiplier.
pub const MULTIPLIER: u64 = 48271;

/// The modulus, a Mersenne prime.
pub const MODULUS: u64 = 0x7fff_ffff;

/// What follows `seed`, the product taken modulo 2^64 first.
pub open spec fn next_seed(seed: u64) -> u64 {
    (((seed * MULTIPLIER) % 0x1_0000_0000_0000_0000) % MODULUS as int) as u64
}

/// The generator's state after `n` draws from `seed`.
pub open spec fn draws(seed: u64, n: nat) -> u64
    decreases n,
{
    if n == 0 {
        seed
    } else {
        next_seed(draws(seed, (n - 1) as nat))
    }
}

/// The generator's state after `n` draws for the table.
pub open spec fn draw(n: nat) -> u64 {
    draws(SEED, n)
}

/// Entry `i` of the table: the low byte of draw `i + 1`.
pub open spec fn rand_byte(i: nat) -> u8 {
    (draw(i + 1) % 256) as u8
}

/// The whole table.
pub open spec fn rand_bytes() -> Seq<u8> {
    Seq::new(256, |i: int| rand_byte(i as nat))
}

/// One draw.
pub fn lcg(seed: u64) -> (r: u64)
    ensures
        r == next_seed(seed),
        r < 0x7fff_ffff,
        ((seed * 48271) % 0x1_0000_0000_0000_0000 - r) % 0x7fff_ffff == 0,
{
    seed.wrapping_mul(MULTIPLIER) % MODULUS
}

/// Computes the table.
pub fn rand_table() -> (table: [u8; 256])
    ensures
        table@ == rand_bytes(),
        forall|i: int|
            0 <= i < 256 ==> #[trigger] table@[i] == ((pow(48271, (i + 1) as nat) * 0xC0CAC01A)
                % 0x7fff_ffff) % 256,
{
    let mut arr: [u8; 256] = [0u8; 256];
    let mut i: usize = 0;
    let mut s: u64 = SEED;
    while i < 256
        invariant
            i <= 256,
            s == draw(i as nat),
            forall|j: int| 0 <= j < i ==> arr[j] == rand_byte(j as nat),
        decreases 256 - i,
    {
        s = lcg(s);
        assert((s & 0xFF) as u8 == s % 256) by (bit_vector);
        arr[i] = (s & 0xFF) as u8;
        i += 1;
    }
    proof {
        assert(arr@ =~= rand_bytes());
        assert forall|i: int| 0 <= i < 256 implies #[trigger] arr@[i] == ((pow(
            48271,
            (i + 1) as nat,
        ) * 0xC0CAC01A) % 0x7fff_ffff) % 256 by {
            law_table_holds_powers(i);
        }
    }
    arr
}

/// On a seed whose product fits in 64 bits a draw is the minimal standard
/// generator: multiplication by 48271 modulo 2^31 - 1.
pub proof fn law_lcg_is_minimal_standard(seed: u64)
    requires
        seed * MULTIPLIER < 0x1_0000_0000_0000_0000,
    ensures
        next_seed(seed) == (48271 * seed) % 0x7fff_ffff,
{
}

/// A draw is the remainder, modulo 2^31 - 1, of the low 64 bits of the product
/// with 48271.
pub proof fn law_lcg_leaves_remainder(seed: u64)
    ensures
        next_seed(seed) < 0x7fff_ffff,
        ((seed * 48271) % 0x1_0000_0000_0000_0000 - next_seed(seed)) % 0x7fff_ffff == 0,
{
}

/// Draws multiply by powers of 48271: draw `n` from a seed whose product fits in
/// 64 bits is 48271^n times the seed modulo 2^31 - 1.
pub proof fn law_draws_are_powers(seed: u64, n: nat)
    requires
        seed * 48271 < 0x1_0000_0000_0000_0000,
        n > 0,
    ensures
        draws(seed, n) == (pow(48271, n) * seed) % 0x7fff_ffff,
    decreases n,
{
    let m = (n - 1) as nat;
    law_lcg_is_minimal_standard(seed);
    if n == 1 {
        reveal_with_fuel(draws, 2);
        lemma_pow1(48271);
    } else {
        let p = pow(48271, m) * seed;
        law_draws_are_powers(seed, m);
        law_lcg_is_minimal_standard(draws(seed, m));
        lemma_mul_mod_noop_right(48271, p, 0x7fff_ffff);
        reveal(pow);
        assert(48271 * p == (48271 * pow(48271, m)) * seed) by (nonlinear_arith)
            requires
                p == pow(48271, m) * seed,
        ;
    }
}

/// The table has 256 entries, and entry `i` is the low byte of 48271^(i + 1) times
/// the start value modulo 2^31 - 1.
pub proof fn law_table_holds_powers(i: int)
    requires
        0 <= i < 256,
    ensures
        rand_bytes().len() == 256,
        rand_bytes()[i] == ((pow(48271, (i + 1) as nat) * 0xC0CAC01A) % 0x7fff_ffff) % 256,
{
    law_draws_are_powers(SEED, (i + 1) as nat);
}

/// Multiplying a draw by the inverse of the multiplier gives the seed back.
proof fn lemma_draw_undone(seed: u64)
    requires
        0 < seed < MODULUS,
    ensures
        (1899818559 * next_seed(seed)) % (MODULUS as int) == seed,
{
    law_lcg_is_minimal_standard(seed);
    let m: int = MODULUS as int;
    let q: int = (48271 * seed) / m;
    let r: int = next_seed(seed) as int;
    assert(1899818559 * r == seed + m * (42704 * seed - 1899818559 * q)) by {
        assert(48271 * seed == m * q + r);
        assert(1899818559 * 48271 == 1 + 42704 * m);
        assert(1899818559 * (m * q) == m * (1899818559 * q)) by (nonlinear_arith);
        assert(m * (42704 * seed - 1899818559 * q) == m * (42704 * seed) - m * (1899818559 * q))
            by (nonlinear_arith);
    }
    vstd::arithmetic::div_mod::lemma_mod_multiples_vanish(
        42704 * seed - 1899818559 * q,
        seed as int,
        m,
    );
    vstd::arithmetic::div_mod::lemma_small_mod(seed as nat, m as nat);
}

/// A draw permutes the numbers strictly between 0 and 2^31 - 1: it stays among
/// them and takes no two of them to the same number.
pub proof fn law_lcg_permutes(x: u64, y: u64)
    requires
        0 < x < MODULUS,
        0 < y < MODULUS,
    ensures
        0 < next_seed(x) < MODULUS,
        next_seed(x) == next_seed(y) ==> x == y,
{
    lemma_draw_undone(x);
    lemma_draw_undone(y);
}

/// From the first draw on the generator never gets stuck at 0.
pub proof fn law_draws_stay_in_range(n: nat)
    requires
        n > 0,
    ensures
        0 < draw(n) < MODULUS,
    decreases n,
{
    if n == 1 {
        reveal_with_fuel(draws, 2);
    } else {
        law_draws_stay_in_range((n - 1) as nat);
        law_lcg_permutes(draw((n - 1) as nat), draw((n - 1) as nat));
    }
}

} // verus!
