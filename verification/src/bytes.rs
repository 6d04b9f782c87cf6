//! Big-endian encodings of integers.

use vstd::prelude::*;
use vstd::arithmetic::div_mod::lemma_div_denominator;
use vstd::arithmetic::power2::{lemma2_to64, lemma_pow2_adds, lemma_pow2_pos, pow2};
use vstd::bits::lemma_u64_shr_is_div;

verus! {

/// The low `8 * n` bits of `x` as `n` bytes, most significant byte first.
pub open spec fn be_bytes(x: nat, n: nat) -> Seq<u8>
    decreases n,
{
    if n == 0 {
        Seq::empty()
    } else {
        be_bytes(x / 256, (n - 1) as nat).push((x % 256) as u8)
    }
}

/// The value of four bytes read most significant byte first.
pub open spec fn be_word(s: Seq<u8>) -> u32
    recommends
        s.len() == 4,
{
    (s[0] * 0x100_0000 + s[1] * 0x1_0000 + s[2] * 0x100 + s[3]) as u32
}

pub proof fn lemma_be_bytes_len(x: nat, n: nat)
    ensures
        be_bytes(x, n).len() == n,
    decreases n,
{
    if n > 0 {
        lemma_be_bytes_len(x / 256, (n - 1) as nat);
    }
}

/// Byte `i` of the encoding is `x` shifted down to that byte.
pub proof fn lemma_be_bytes_index(x: nat, n: nat, i: nat)
    requires
        i < n,
    ensures
        be_bytes(x, n)[i as int] == (x / pow2((8 * (n - 1 - i)) as nat)) % 256,
    decreases n,
{
    lemma2_to64();
    lemma_be_bytes_len(x / 256, (n - 1) as nat);
    if i + 1 < n {
        let s = (8 * (n - 2 - i)) as nat;
        lemma_be_bytes_index(x / 256, (n - 1) as nat, i);
        lemma_pow2_adds(8, s);
        lemma_pow2_pos(s);
        lemma_div_denominator(x as int, 256, pow2(s) as int);
    } else {
        assert(x / 1 == x);
    }
}

/// An encoding is undone by reading it back: the four bytes of a word have
/// that word as their value.
pub proof fn law_be_word_undoes_be_bytes(x: u32)
    ensures
        be_word(be_bytes(x as nat, 4)) == x,
{
    lemma_be_bytes_len(x as nat, 4);
    reveal_with_fuel(be_bytes, 5);
}

/// Distinct numbers that fit have distinct encodings.
pub proof fn law_be_bytes_injective(x: nat, y: nat, n: nat)
    requires
        x < pow2(8 * n),
        y < pow2(8 * n),
        be_bytes(x, n) == be_bytes(y, n),
    ensures
        x == y,
    decreases n,
{
    lemma2_to64();
    if n > 0 {
        let m = (n - 1) as nat;
        lemma_pow2_adds(8, 8 * m);
        lemma_be_bytes_len(x / 256, m);
        lemma_be_bytes_len(y / 256, m);
        let a = be_bytes(x / 256, m);
        let b = be_bytes(y / 256, m);
        assert(a =~= be_bytes(x, n).drop_last());
        assert(b =~= be_bytes(y, n).drop_last());
        assert(be_bytes(x, n).last() == (x % 256) as u8);
        assert(be_bytes(y, n).last() == (y % 256) as u8);
        law_be_bytes_injective(x / 256, y / 256, m);
    }
}

/// The eight bytes of a number below 2^64, each weighted by its place, add up to
/// the number.
pub proof fn law_eight_bytes_add_up(x: nat)
    requires
        x < 0x1_0000_0000_0000_0000,
    ensures
        be_bytes(x, 8).len() == 8,
        be_bytes(x, 8)[0] * 0x100_0000_0000_0000 + be_bytes(x, 8)[1] * 0x1_0000_0000_0000
            + be_bytes(x, 8)[2] * 0x100_0000_0000 + be_bytes(x, 8)[3] * 0x1_0000_0000 + be_bytes(
            x,
            8,
        )[4] * 0x100_0000 + be_bytes(x, 8)[5] * 0x1_0000 + be_bytes(x, 8)[6] * 0x100 + be_bytes(
            x,
            8,
        )[7] == x,
{
    let x1 = x / 256;
    let x2 = x1 / 256;
    let x3 = x2 / 256;
    let x4 = x3 / 256;
    let x5 = x4 / 256;
    let x6 = x5 / 256;
    let x7 = x6 / 256;
    lemma_be_bytes_len(x, 8);
    reveal_with_fuel(be_bytes, 9);
    assert(be_bytes(x, 8) == Seq::<u8>::empty().push((x7 % 256) as u8).push(
        (x6 % 256) as u8,
    ).push((x5 % 256) as u8).push((x4 % 256) as u8).push((x3 % 256) as u8).push(
        (x2 % 256) as u8,
    ).push((x1 % 256) as u8).push((x % 256) as u8));
}

/// The four bytes of a word, each weighted by its place, add up to the word.
pub proof fn law_four_bytes_add_up(x: u32)
    ensures
        be_bytes(x as nat, 4).len() == 4,
        be_bytes(x as nat, 4)[0] * 0x100_0000 + be_bytes(x as nat, 4)[1] * 0x1_0000 + be_bytes(
            x as nat,
            4,
        )[2] * 0x100 + be_bytes(x as nat, 4)[3] == x,
{
    let y = x as nat;
    let x1 = y / 256;
    let x2 = x1 / 256;
    let x3 = x2 / 256;
    lemma_be_bytes_len(y, 4);
    reveal_with_fuel(be_bytes, 5);
    let b = be_bytes(y, 4);
    assert(b == Seq::<u8>::empty().push((x3 % 256) as u8).push((x2 % 256) as u8).push(
        (x1 % 256) as u8,
    ).push((y % 256) as u8));
    assert(x3 < 256 && b[0] == x3);
    assert(b[1] == x2 % 256 && b[2] == x1 % 256 && b[3] == y % 256);
}

/// Byte `i` of the eight-byte encoding of `x`.
pub fn be_byte_of_u64(x: u64, i: usize) -> (b: u8)
    requires
        i < 8,
    ensures
        b == be_bytes(x as nat, 8)[i as int],
        b == (x as nat / pow2((8 * (7 - i)) as nat)) % 256,
{
    let shift: u64 = 56 - 8 * (i as u64);
    let y: u64 = x >> shift;
    proof {
        lemma_be_bytes_index(x as nat, 8, i as nat);
        lemma_u64_shr_is_div(x, shift);
        assert(y as u8 == y % 256) by (bit_vector);
    }
    y as u8
}

/// The four-byte encoding of `x`.
pub fn be_bytes_of_u32(x: u32) -> (b: [u8; 4])
    ensures
        b@ == be_bytes(x as nat, 4),
        b@[0] * 0x100_0000 + b@[1] * 0x1_0000 + b@[2] * 0x100 + b@[3] == x,
{
    let b: [u8; 4] = [(x >> 24) as u8, (x >> 16) as u8, (x >> 8) as u8, x as u8];
    proof {
        lemma_be_bytes_len(x as nat, 4);
        lemma_be_bytes_index(x as nat, 4, 0);
        lemma_be_bytes_index(x as nat, 4, 1);
        lemma_be_bytes_index(x as nat, 4, 2);
        lemma_be_bytes_index(x as nat, 4, 3);
        lemma2_to64();
        assert((x >> 24) as u8 == (x / 0x100_0000) % 256) by (bit_vector);
        assert((x >> 16) as u8 == (x / 0x1_0000) % 256) by (bit_vector);
        assert((x >> 8) as u8 == (x / 0x100) % 256) by (bit_vector);
        assert(x as u8 == x % 256) by (bit_vector);
        law_four_bytes_add_up(x);
    }
    b
}

/// The word whose big-endian bytes are `b0`, `b1`, `b2`, `b3`.
pub fn u32_of_be_bytes(b0: u8, b1: u8, b2: u8, b3: u8) -> (x: u32)
    ensures
        x == be_word(seq![b0, b1, b2, b3]),
        x == b0 * 0x100_0000 + b1 * 0x1_0000 + b2 * 0x100 + b3,
{
    assert((((b0 as u32) << 24) | ((b1 as u32) << 16) | ((b2 as u32) << 8) | (b3 as u32)) == b0
        * 0x100_0000 + b1 * 0x1_0000 + b2 * 0x100 + b3) by (bit_vector);
    ((b0 as u32) << 24) | ((b1 as u32) << 16) | ((b2 as u32) << 8) | (b3 as u32)
}

} // verus!
