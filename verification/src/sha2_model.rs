//! SHA-256 as a mathematical function on byte sequences.

use vstd::prelude::*;
use crate::bytes;

verus! {

/// Initial hash value.
pub const H: [u32; 8] = [
    0x6a09e667, 0xbb67ae85, 0x3c6ef372, 0xa54ff53a, 0x510e527f, 0x9b05688c, 0x1f83d9ab, 0x5be0cd19,
];

/// Round constants.
pub const K: [u32; 64] = [
    0x428a2f98, 0x71374491, 0xb5c0fbcf, 0xe9b5dba5, 0x3956c25b, 0x59f111f1, 0x923f82a4, 0xab1c5ed5,
    0xd807aa98, 0x12835b01, 0x243185be, 0x550c7dc3, 0x72be5d74, 0x80deb1fe, 0x9bdc06a7, 0xc19bf174,
    0xe49b69c1, 0xefbe4786, 0x0fc19dc6, 0x240ca1cc, 0x2de92c6f, 0x4a7484aa, 0x5cb0a9dc, 0x76f988da,
    0x983e5152, 0xa831c66d, 0xb00327c8, 0xbf597fc7, 0xc6e00bf3, 0xd5a79147, 0x06ca6351, 0x14292967,
    0x27b70a85, 0x2e1b2138, 0x4d2c6dfc, 0x53380d13, 0x650a7354, 0x766a0abb, 0x81c2c92e, 0x92722c85,
    0xa2bfe8a1, 0xa81a664b, 0xc24b8b70, 0xc76c51a3, 0xd192e819, 0xd6990624, 0xf40e3585, 0x106aa070,
    0x19a4c116, 0x1e376c08, 0x2748774c, 0x34b0bcb5, 0x391c0cb3, 0x4ed8aa4a, 0x5b9cca4f, 0x682e6ff3,
    0x748f82ee, 0x78a5636f, 0x84c87814, 0x8cc70208, 0x90befffa, 0xa4506ceb, 0xbef9a3f7, 0xc67178f2,
];

/// Addition modulo 2^32.
pub open spec fn add32(x: u32, y: u32) -> u32 {
    ((x + y) % 0x1_0000_0000) as u32
}

/// Rotation to the right by `n` bits, for `n` strictly between 0 and 32.
pub open spec fn rotr(x: u32, n: u32) -> u32 {
    (x >> n) | (x << ((32 - n) as u32))
}

pub open spec fn ch(x: u32, y: u32, z: u32) -> u32 {
    (x & y) ^ (!x & z)
}

pub open spec fn maj(x: u32, y: u32, z: u32) -> u32 {
    (x & y) ^ (x & z) ^ (y & z)
}

pub open spec fn big_sigma0(x: u32) -> u32 {
    rotr(x, 2) ^ rotr(x, 13) ^ rotr(x, 22)
}

pub open spec fn big_sigma1(x: u32) -> u32 {
    rotr(x, 6) ^ rotr(x, 11) ^ rotr(x, 25)
}

pub open spec fn small_sigma0(x: u32) -> u32 {
    rotr(x, 7) ^ rotr(x, 18) ^ (x >> 3)
}

pub open spec fn small_sigma1(x: u32) -> u32 {
    rotr(x, 17) ^ rotr(x, 19) ^ (x >> 10)
}

/// Word `t` of the message schedule of a 64-byte block.
pub open spec fn schedule(block: Seq<u8>, t: nat) -> u32
    decreases t,
{
    if t < 16 {
        bytes::be_word(block.subrange(4 * t as int, (4 * t + 4) as int))
    } else {
        add32(
            add32(
                add32(
                    schedule(block, (t - 16) as nat),
                    small_sigma0(schedule(block, (t - 15) as nat)),
                ),
                schedule(block, (t - 7) as nat),
            ),
            small_sigma1(schedule(block, (t - 2) as nat)),
        )
    }
}

/// The first temporary of a round on the working variables `v`.
pub open spec fn temp1(v: Seq<u32>, k: u32, w: u32) -> u32 {
    add32(add32(add32(add32(v[7], big_sigma1(v[4])), ch(v[4], v[5], v[6])), k), w)
}

/// The second temporary of a round on the working variables `v`.
pub open spec fn temp2(v: Seq<u32>) -> u32 {
    add32(big_sigma0(v[0]), maj(v[0], v[1], v[2]))
}

/// One round on the eight working variables.
pub open spec fn round(v: Seq<u32>, k: u32, w: u32) -> Seq<u32> {
    seq![
        add32(temp1(v, k, w), temp2(v)),
        v[0],
        v[1],
        v[2],
        add32(v[3], temp1(v, k, w)),
        v[4],
        v[5],
        v[6],
    ]
}

/// The working variables after the first `t` rounds.
pub open spec fn rounds(h: Seq<u32>, block: Seq<u8>, t: nat) -> Seq<u32>
    decreases t,
{
    if t == 0 {
        h
    } else {
        round(rounds(h, block, (t - 1) as nat), K@[t - 1], schedule(block, (t - 1) as nat))
    }
}

/// The hash value after a further 64-byte block.
#[verifier::opaque]
pub open spec fn compress(h: Seq<u32>, block: Seq<u8>) -> Seq<u32> {
    Seq::new(8, |i: int| add32(h[i], rounds(h, block, 64)[i]))
}

/// The hash value after the first `n` blocks of `data`.
pub open spec fn hash_blocks(data: Seq<u8>, n: nat) -> Seq<u32>
    decreases n,
{
    if n == 0 {
        H@
    } else {
        compress(hash_blocks(data, (n - 1) as nat), data.subrange(64 * (n - 1), 64 * n as int))
    }
}

/// The number of zero bytes between the marker byte and the length field:
/// as few as bring the whole to a multiple of 64 bytes.
pub open spec fn pad_zeros(len: nat) -> nat {
    ((119 - len % 64) % 64) as nat
}

/// The length field: the number of message bits, modulo 2^64, in eight bytes.
pub open spec fn length_field(len: nat) -> Seq<u8> {
    bytes::be_bytes((8 * len) % 0x1_0000_0000_0000_0000, 8)
}

/// A message followed by the marker byte, zeros and the length field.
pub open spec fn pad(msg: Seq<u8>) -> Seq<u8> {
    msg + seq![0x80u8] + Seq::new(pad_zeros(msg.len()), |i: int| 0u8) + length_field(msg.len())
}

/// The words of a hash value as bytes.
pub open spec fn words_to_bytes(h: Seq<u32>) -> Seq<u8> {
    Seq::new(4 * h.len(), |i: int| bytes::be_bytes(h[i / 4] as nat, 4)[i % 4])
}

/// The SHA-256 digest of a message.
pub open spec fn sha256(msg: Seq<u8>) -> Seq<u8> {
    words_to_bytes(hash_blocks(pad(msg), pad(msg).len() / 64))
}

} // verus!
